//! The marker lines that delimit a subscription block, and the block itself.
use vstd::prelude::*;

use crate::globals::{
    HOSTS_SUBSCRIPTION_END_MARKER, HOSTS_SUBSCRIPTION_MARKER_SUFFIX,
    HOSTS_SUBSCRIPTION_START_MARKER, SUBSCRIPTION_TIME_PREFIX, SUBSCRIPTION_TIME_SUFFIX,
};
use crate::text::{
    chars_of, copy_range, decimal, decimal_chars, ends_with, has_prefix, has_suffix,
    join_lines, join_strings, split_lines, starts_with, string_of, text_lines, trim, trim_chars,
};

verus! {

pub open spec fn start_prefix() -> Seq<char> {
    HOSTS_SUBSCRIPTION_START_MARKER@
}

pub open spec fn end_prefix() -> Seq<char> {
    HOSTS_SUBSCRIPTION_END_MARKER@
}

pub open spec fn marker_suffix() -> Seq<char> {
    HOSTS_SUBSCRIPTION_MARKER_SUFFIX@
}

/// A line `<start prefix><url><suffix>`, where prefix and suffix do not overlap.
pub open spec fn is_start_marker(l: Seq<char>) -> bool {
    &&& l.len() >= start_prefix().len() + marker_suffix().len()
    &&& has_prefix(l, start_prefix())
    &&& has_suffix(l, marker_suffix())
}

/// The URL that a start marker line embeds.
pub open spec fn marker_url(l: Seq<char>) -> Seq<char> {
    l.subrange(start_prefix().len() as int, l.len() - marker_suffix().len())
}

/// A line `<end prefix>...<suffix>`; it closes whatever block is open.
pub open spec fn is_end_marker(l: Seq<char>) -> bool {
    has_prefix(l, end_prefix()) && has_suffix(l, marker_suffix())
}

pub open spec fn start_marker(url: Seq<char>) -> Seq<char> {
    start_prefix() + url + marker_suffix()
}

pub open spec fn end_marker(url: Seq<char>) -> Seq<char> {
    end_prefix() + url + marker_suffix()
}

pub open spec fn timestamp_line(now: nat) -> Seq<char> {
    SUBSCRIPTION_TIME_PREFIX@ + decimal(now) + SUBSCRIPTION_TIME_SUFFIX@
}

/// A trimmed line of downloaded content that a block keeps: not blank, not a comment.
pub open spec fn is_entry(t: Seq<char>) -> bool {
    t.len() > 0 && t[0] != '#'
}

/// The trimmed entries of `ls`, in order.
pub open spec fn kept_entries(ls: Seq<Seq<char>>) -> Seq<Seq<char>>
    decreases ls.len(),
{
    if ls.len() == 0 {
        Seq::empty()
    } else {
        let prev = kept_entries(ls.drop_last());
        if is_entry(trim(ls.last())) {
            prev.push(trim(ls.last()))
        } else {
            prev
        }
    }
}

/// The lines of the block that subscribing `url` with `content` at time `now` produces.
pub open spec fn block_lines(url: Seq<char>, content: Seq<char>, now: nat) -> Seq<Seq<char>> {
    seq![start_marker(url), timestamp_line(now), Seq::empty()] + kept_entries(text_lines(content))
        + seq![Seq::empty(), end_marker(url)]
}

pub proof fn lemma_marker_facts()
    ensures
        start_prefix().len() == 31,
        marker_suffix().len() == 4,
        end_prefix().len() == 34,
        start_prefix()[0] == '#',
        end_prefix()[0] == '#',
        start_prefix()[6] == 'x',
        end_prefix()[6] == '结',
{
    reveal_strlit("# === xdev hosts subscription: ");
    reveal_strlit("# === 结束 xdev hosts subscription: ");
    reveal_strlit(" ===");
}

/// A start marker built from `url` reads back as that URL, and is no end marker.
pub proof fn lemma_start_marker(url: Seq<char>)
    ensures
        is_start_marker(start_marker(url)),
        marker_url(start_marker(url)) == url,
        !is_end_marker(start_marker(url)),
        start_marker(url).len() > 0,
{
    lemma_marker_facts();
    let l = start_marker(url);
    assert(l.subrange(0, start_prefix().len() as int) =~= start_prefix());
    assert(l.subrange(l.len() - marker_suffix().len(), l.len() as int) =~= marker_suffix());
    assert(marker_url(l) =~= url);
    assert(l.subrange(0, end_prefix().len() as int)[6] == 'x');
}

/// An end marker is no start marker.
pub proof fn lemma_end_marker(url: Seq<char>)
    ensures
        is_end_marker(end_marker(url)),
        !is_start_marker(end_marker(url)),
        end_marker(url).len() > 0,
{
    lemma_marker_facts();
    let l = end_marker(url);
    assert(l.subrange(0, end_prefix().len() as int) =~= end_prefix());
    assert(l.subrange(l.len() - marker_suffix().len(), l.len() as int) =~= marker_suffix());
    assert(l.subrange(0, start_prefix().len() as int)[6] == '结');
}

/// The URL of a start marker line, or `None` for any other line.
pub fn extract_subscription_url_from_start_marker(line: &str) -> (r: Option<String>)
    ensures
        is_start_marker(line@) ==> r is Some && r->0@ == marker_url(line@),
        !is_start_marker(line@) ==> r is None,
{
    let l = chars_of(line);
    let p = chars_of(HOSTS_SUBSCRIPTION_START_MARKER);
    let s = chars_of(HOSTS_SUBSCRIPTION_MARKER_SUFFIX);
    if l.len() >= p.len() && l.len() - p.len() >= s.len() && starts_with(&l, &p) && ends_with(
        &l,
        &s,
    ) {
        let u = copy_range(&l, p.len(), l.len() - s.len());
        Some(string_of(&u))
    } else {
        None
    }
}

/// Whether `line` is an end marker.
pub fn is_subscription_end_marker(line: &str) -> (r: bool)
    ensures
        r == is_end_marker(line@),
{
    let l = chars_of(line);
    let p = chars_of(HOSTS_SUBSCRIPTION_END_MARKER);
    let s = chars_of(HOSTS_SUBSCRIPTION_MARKER_SUFFIX);
    starts_with(&l, &p) && ends_with(&l, &s)
}

/// `<prefix><url><suffix>` as a `String`.
fn wrap(prefix: &str, middle: &Vec<char>, suffix: &str) -> (r: String)
    ensures
        r@ == prefix@ + middle@ + suffix@,
{
    let mut r = String::from_str(prefix);
    let m = string_of(middle);
    r.append(m.as_str());
    r.append(suffix);
    r
}

/// The lines of a fresh block for `url`: start marker, the time comment, a blank line,
/// the trimmed non-blank, non-comment lines of `content`, a blank line, the end marker.
pub fn subscription_block_lines(url: &str, content: &str, now: u64) -> (r: Vec<String>)
    ensures
        r.deep_view() == block_lines(url@, content@, now as nat),
{
    let u = chars_of(url);
    let mut r: Vec<String> = Vec::new();
    r.push(wrap(HOSTS_SUBSCRIPTION_START_MARKER, &u, HOSTS_SUBSCRIPTION_MARKER_SUFFIX));
    let digits = decimal_chars(now);
    r.push(wrap(SUBSCRIPTION_TIME_PREFIX, &digits, SUBSCRIPTION_TIME_SUFFIX));
    r.push(String::new());
    let ghost head = r.deep_view();
    assert(head =~= seq![start_marker(url@), timestamp_line(now as nat), Seq::empty()]);
    let c = chars_of(content);
    let lines = split_lines(&c);
    let mut i: usize = 0;
    while i < lines.len()
        invariant
            i <= lines.len(),
            lines.deep_view() == text_lines(content@),
            r.deep_view() == head + kept_entries(lines.deep_view().take(i as int)),
        decreases lines.len() - i,
    {
        let lc = chars_of(lines[i].as_str());
        let t = trim_chars(&lc);
        let ghost before = r.deep_view();
        proof {
            assert(lines.deep_view().take(i as int + 1).drop_last() =~= lines.deep_view().take(
                i as int,
            ));
        }
        if t.len() > 0 && t[0] != '#' {
            r.push(string_of(&t));
            proof {
                assert(r.deep_view() =~= before.push(t@));
                assert(r.deep_view() =~= head + kept_entries(
                    lines.deep_view().take(i as int + 1),
                ));
            }
        }
        i += 1;
    }
    proof {
        assert(lines.deep_view().take(lines.len() as int) =~= lines.deep_view());
    }
    let ghost mid = r.deep_view();
    r.push(String::new());
    r.push(wrap(HOSTS_SUBSCRIPTION_END_MARKER, &u, HOSTS_SUBSCRIPTION_MARKER_SUFFIX));
    assert(r.deep_view() =~= mid + seq![Seq::empty(), end_marker(url@)]);
    r
}

/// The text of a fresh block for `url`, its lines joined with `\n`.
pub fn create_subscription_block(url: &str, content: &str, now: u64) -> (r: String)
    ensures
        r@ == join_lines(block_lines(url@, content@, now as nat)),
{
    let lines = subscription_block_lines(url, content, now);
    join_strings(&lines)
}

} // verus!
