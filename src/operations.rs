//! Subscription operations built from the document, the coordinator and the checks.
use vstd::prelude::*;

use crate::document::{parse_text, BlockModel, HostsFileStructure};
use crate::error::XdevError;
use crate::markers::kept_entries;
use crate::text::{chars_of, split_lines, text_lines, trim_chars};
use crate::transaction::{HostsMutation, HostsTransaction, MutationModel, TxAction, TxModel, TxPhase, action_for};
use crate::validation::{url_ok, validate_url};

verus! {

/// The URLs of the blocks in a hosts file's text, in document order.
pub fn get_all_subscriptions(content: &str) -> (r: Vec<String>)
    ensures
        r.deep_view() == parse_text(content@).blocks.map_values(|b: BlockModel| b.0),
{
    let doc = HostsFileStructure::parse(content);
    doc.get_all_subscriptions()
}

/// Checks downloaded content before it is subscribed: it must have lines, and at least
/// one of them must be neither blank nor a comment. Returns how many such entries it has.
pub fn check_hosts_content(content: &str) -> (r: Result<usize, XdevError>)
    ensures
        text_lines(content@).len() == 0 ==> r == Err::<usize, XdevError>(
            XdevError::HostsContentEmpty,
        ),
        text_lines(content@).len() > 0 && kept_entries(text_lines(content@)).len() == 0 ==> r
            == Err::<usize, XdevError>(XdevError::HostsContentInvalid),
        text_lines(content@).len() > 0 && kept_entries(text_lines(content@)).len() > 0 ==> r
            == Ok::<usize, XdevError>(kept_entries(text_lines(content@)).len() as usize),
{
    let c = chars_of(content);
    let lines = split_lines(&c);
    if lines.len() == 0 {
        return Err(XdevError::HostsContentEmpty);
    }
    let mut count: usize = 0;
    let mut i: usize = 0;
    while i < lines.len()
        invariant
            i <= lines.len(),
            lines.deep_view() == text_lines(content@),
            count == kept_entries(lines.deep_view().take(i as int)).len(),
            count <= i,
        decreases lines.len() - i,
    {
        proof {
            assert(lines.deep_view().take(i as int + 1).drop_last() =~= lines.deep_view().take(
                i as int,
            ));
        }
        let lc = chars_of(lines[i].as_str());
        let t = trim_chars(&lc);
        if t.len() > 0 && t[0] != '#' {
            count += 1;
        }
        i += 1;
    }
    proof {
        assert(lines.deep_view().take(lines.len() as int) =~= lines.deep_view());
    }
    if count == 0 {
        Err(XdevError::HostsContentInvalid)
    } else {
        Ok(count)
    }
}

/// Refreshing one subscription with freshly downloaded `content`: the URL is checked,
/// then an operation that stores the new block begins on a file holding `original`.
pub fn update_single_subscription(url: &str, content: &str, now: u64, original: String) -> (r:
    Result<(HostsTransaction, TxAction), XdevError>)
    ensures
        !url_ok(url@) ==> r is Err,
        url_ok(url@) ==> r is Ok && r->Ok_0.0.model() == (TxModel {
            phase: TxPhase::Start,
            original: original@,
            updated: Seq::empty(),
            changed: false,
            mutation: MutationModel::AddOrUpdate(url@, content@, now as nat),
        }) && r->Ok_0.1.model() == action_for(r->Ok_0.0.model()),
{
    match validate_url(url) {
        Err(e) => Err(e),
        Ok(()) => {
            let m = HostsMutation::AddOrUpdate {
                url: String::from_str(url),
                content: String::from_str(content),
                now,
            };
            Ok(HostsTransaction::new(original, m))
        },
    }
}


/// How many refreshes succeeded.
pub open spec fn success_total(results: Seq<bool>) -> nat
    decreases results.len(),
{
    if results.len() == 0 {
        0
    } else {
        success_total(results.drop_last()) + if results.last() {
            1nat
        } else {
            0nat
        }
    }
}

/// The URLs whose refresh failed, in the order they were tried.
pub open spec fn failed_of(urls: Seq<Seq<char>>, results: Seq<bool>) -> Seq<Seq<char>>
    decreases results.len(),
{
    if results.len() == 0 || urls.len() == 0 {
        Seq::empty()
    } else {
        let p = failed_of(urls.drop_last(), results.drop_last());
        if results.last() {
            p
        } else {
            p.push(urls.last())
        }
    }
}

/// The outcome of refreshing every subscription in turn.
pub struct UpdateSummary {
    pub success_count: usize,
    pub failed_urls: Vec<String>,
    pub total_count: usize,
}

/// Summarizes a refresh of `urls` in which the refresh of `urls[i]` succeeded exactly
/// when `results[i]` holds. One failure does not stop the others.
pub fn summarize_updates(urls: &Vec<String>, results: &Vec<bool>) -> (r: UpdateSummary)
    requires
        urls.len() == results.len(),
    ensures
        r.success_count == success_total(results@),
        r.failed_urls.deep_view() == failed_of(urls.deep_view(), results@),
        r.total_count == urls.len(),
{
    let mut success_count: usize = 0;
    let mut failed_urls: Vec<String> = Vec::new();
    let mut i: usize = 0;
    while i < urls.len()
        invariant
            i <= urls.len() == results.len(),
            success_count == success_total(results@.take(i as int)),
            success_count <= i,
            failed_urls.deep_view() == failed_of(
                urls.deep_view().take(i as int),
                results@.take(i as int),
            ),
        decreases urls.len() - i,
    {
        proof {
            assert(results@.take(i as int + 1).drop_last() =~= results@.take(i as int));
            assert(urls.deep_view().take(i as int + 1).drop_last() =~= urls.deep_view().take(
                i as int,
            ));
        }
        if results[i] {
            success_count += 1;
        } else {
            let ghost before = failed_urls.deep_view();
            failed_urls.push(urls[i].clone());
            proof {
                assert(failed_urls.deep_view() =~= before.push(urls.deep_view()[i as int]));
            }
        }
        i += 1;
    }
    proof {
        assert(results@.take(i as int) =~= results@);
        assert(urls.deep_view().take(i as int) =~= urls.deep_view());
    }
    UpdateSummary { success_count, failed_urls, total_count: urls.len() }
}

/// Every URL of a refresh is counted once: as a success, or among the failures.
pub proof fn lemma_summary_counts_each_url(urls: Seq<Seq<char>>, results: Seq<bool>)
    requires
        urls.len() == results.len(),
    ensures
        success_total(results) + failed_of(urls, results).len() == urls.len(),
    decreases results.len(),
{
    if results.len() > 0 {
        lemma_summary_counts_each_url(urls.drop_last(), results.drop_last());
    }
}

} // verus!
