//! What the command line shows about downloaded content and the subscriptions:
//! computed here, printed by the caller.
use vstd::prelude::*;

use crate::markers::kept_entries;
use crate::text::{
    chars_of, copy_range, is_white_space, is_whitespace_char, split_lines, string_of, text_lines,
    trim_chars,
};
use crate::validation::{lemma_utf8_len_grows, utf8_len, utf8_width_exec};

verus! {

/// Entries shown in a preview at most.
pub const MAX_PREVIEW_LINES: usize = 8;

/// A preview line longer than this many bytes is cut ...
pub const MAX_PREVIEW_LINE_LENGTH: usize = 60;

/// ... to at most this many bytes, followed by `...`.
pub const PREVIEW_LINE_DISPLAY_LENGTH: usize = 57;

/// A URL in the subscription list longer than this many bytes is cut ...
pub const MAX_URL_DISPLAY_LENGTH: usize = 50;

/// ... to at most this many bytes, followed by `...`.
pub const URL_DISPLAY_LENGTH: usize = 47;

/// `r` is the longest prefix of `s` that takes at most `max` bytes in UTF-8.
pub open spec fn is_byte_prefix(r: Seq<char>, s: Seq<char>, max: nat) -> bool {
    &&& r.len() <= s.len()
    &&& r == s.take(r.len() as int)
    &&& utf8_len(r) <= max
    &&& r.len() < s.len() ==> utf8_len(s.take(r.len() + 1 as int)) > max
}

/// `s` as displayed in at most `limit` bytes: unchanged if it fits, else its longest
/// prefix of at most `keep` bytes followed by `...`.
pub open spec fn shortened(r: Seq<char>, s: Seq<char>, limit: nat, keep: nat) -> bool {
    if utf8_len(s) <= limit {
        r == s
    } else {
        exists|p: Seq<char>| is_byte_prefix(p, s, keep) && r == p + "..."@
    }
}

/// The longest prefix of `s` that fits in `max` bytes.
fn byte_prefix(s: &Vec<char>, max: usize) -> (r: Vec<char>)
    ensures
        is_byte_prefix(r@, s@, max as nat),
{
    let mut i: usize = 0;
    let mut bytes: usize = 0;
    while i < s.len()
        invariant
            i <= s.len(),
            bytes as nat == utf8_len(s@.take(i as int)),
            bytes <= max,
        decreases s.len() - i,
    {
        let w = utf8_width_exec(s[i]);
        assert(s@.take(i as int + 1).drop_last() =~= s@.take(i as int));
        if w > max - bytes {
            let r = copy_range(s, 0, i);
            assert(r@ =~= s@.take(i as int));
            return r;
        }
        bytes = bytes + w;
        i += 1;
    }
    assert(s@.take(i as int) =~= s@);
    let r = copy_range(s, 0, i);
    assert(r@ =~= s@.take(i as int));
    r
}

/// Bytes that `s` takes in UTF-8, or `None` if more than `usize` can count.
fn utf8_len_of(s: &Vec<char>) -> (r: Option<usize>)
    ensures
        r is Some ==> r->0 as nat == utf8_len(s@),
        r is None ==> utf8_len(s@) > usize::MAX,
{
    let mut i: usize = 0;
    let mut bytes: usize = 0;
    while i < s.len()
        invariant
            i <= s.len(),
            bytes as nat == utf8_len(s@.take(i as int)),
        decreases s.len() - i,
    {
        let w = utf8_width_exec(s[i]);
        assert(s@.take(i as int + 1).drop_last() =~= s@.take(i as int));
        if w > usize::MAX - bytes {
            proof {
                lemma_utf8_len_grows(s@, i as int + 1);
            }
            return None;
        }
        bytes = bytes + w;
        i += 1;
    }
    assert(s@.take(i as int) =~= s@);
    Some(bytes)
}

/// `s` shortened for display: if it takes more than `limit` bytes, its longest prefix of
/// at most `keep` bytes followed by `...`. Never cuts a character in two.
pub fn shorten_for_display(s: &str, limit: usize, keep: usize) -> (r: String)
    ensures
        shortened(r@, s@, limit as nat, keep as nat),
{
    proof {
        reveal_strlit("...");
    }
    let c = chars_of(s);
    let fits = match utf8_len_of(&c) {
        Some(n) => n <= limit,
        None => false,
    };
    if fits {
        string_of(&c)
    } else {
        let p = byte_prefix(&c, keep);
        let mut r = string_of(&p);
        r.append("...");
        assert(is_byte_prefix(p@, s@, keep as nat) && r@ == p@ + "..."@);
        r
    }
}

/// The preview of downloaded content: its first entries, shortened, and its counts.
pub struct ContentPreview {
    pub shown: Vec<String>,
    pub valid_entries: usize,
    pub total_lines: usize,
}

/// A preview of `content`: the first `MAX_PREVIEW_LINES` entries (trimmed lines that are
/// not blank or comments), each shortened to fit, with the number of entries and lines.
pub fn content_preview(content: &str) -> (r: ContentPreview)
    ensures
        r.total_lines == text_lines(content@).len(),
        r.valid_entries == kept_entries(text_lines(content@)).len(),
        r.shown@.len() == if kept_entries(text_lines(content@)).len() < MAX_PREVIEW_LINES {
            kept_entries(text_lines(content@)).len()
        } else {
            MAX_PREVIEW_LINES as nat
        },
        forall|k: int|
            0 <= k < r.shown@.len() ==> shortened(
                #[trigger] r.shown@[k]@,
                kept_entries(text_lines(content@))[k],
                MAX_PREVIEW_LINE_LENGTH as nat,
                PREVIEW_LINE_DISPLAY_LENGTH as nat,
            ),
{
    let c = chars_of(content);
    let lines = split_lines(&c);
    let mut shown: Vec<String> = Vec::new();
    let mut valid: usize = 0;
    let mut i: usize = 0;
    while i < lines.len()
        invariant
            i <= lines.len(),
            lines.deep_view() == text_lines(content@),
            valid == kept_entries(lines.deep_view().take(i as int)).len(),
            valid <= i,
            shown@.len() == if valid < MAX_PREVIEW_LINES {
                valid as nat
            } else {
                MAX_PREVIEW_LINES as nat
            },
            forall|k: int|
                0 <= k < shown@.len() ==> shortened(
                    #[trigger] shown@[k]@,
                    kept_entries(lines.deep_view().take(i as int))[k],
                    MAX_PREVIEW_LINE_LENGTH as nat,
                    PREVIEW_LINE_DISPLAY_LENGTH as nat,
                ),
        decreases lines.len() - i,
    {
        let ghost prev = kept_entries(lines.deep_view().take(i as int));
        proof {
            assert(lines.deep_view().take(i as int + 1).drop_last() =~= lines.deep_view().take(
                i as int,
            ));
        }
        let lc = chars_of(lines[i].as_str());
        let t = trim_chars(&lc);
        if t.len() > 0 && t[0] != '#' {
            let ghost next = kept_entries(lines.deep_view().take(i as int + 1));
            assert(next == prev.push(t@));
            if shown.len() < MAX_PREVIEW_LINES {
                let ts = string_of(&t);
                let line = shorten_for_display(
                    ts.as_str(),
                    MAX_PREVIEW_LINE_LENGTH,
                    PREVIEW_LINE_DISPLAY_LENGTH,
                );
                shown.push(line);
            }
            valid += 1;
            assert forall|k: int| 0 <= k < shown@.len() implies shortened(
                #[trigger] shown@[k]@,
                next[k],
                MAX_PREVIEW_LINE_LENGTH as nat,
                PREVIEW_LINE_DISPLAY_LENGTH as nat,
            ) by {
                if k < prev.len() {
                    assert(next[k] == prev[k]);
                }
            }
        }
        i += 1;
    }
    proof {
        assert(lines.deep_view().take(lines.len() as int) =~= lines.deep_view());
    }
    ContentPreview { shown, valid_entries: valid, total_lines: lines.len() }
}

/// For each registered URL, whether the hosts file holds a block for it.
pub fn sync_statuses(registry: &Vec<String>, in_file: &Vec<String>) -> (r: Vec<bool>)
    ensures
        r@.len() == registry@.len(),
        forall|i: int|
            0 <= i < registry@.len() ==> #[trigger] r@[i] == in_file.deep_view().contains(
                registry@[i]@,
            ),
{
    let mut r: Vec<bool> = Vec::new();
    let mut i: usize = 0;
    while i < registry.len()
        invariant
            i <= registry.len(),
            r@.len() == i,
            forall|k: int|
                0 <= k < i ==> #[trigger] r@[k] == in_file.deep_view().contains(registry@[k]@),
        decreases registry.len() - i,
    {
        let mut found = false;
        let mut j: usize = 0;
        while j < in_file.len()
            invariant
                j <= in_file.len(),
                i < registry.len(),
                found <==> exists|k: int| 0 <= k < j && #[trigger] in_file.deep_view()[k] == registry@[i as int]@,
            decreases in_file.len() - j,
        {
            let same = in_file[j] == registry[i];
            assert(in_file.deep_view()[j as int] == in_file@[j as int]@);
            if same {
                found = true;
            }
            j += 1;
        }
        r.push(found);
        assert(found == in_file.deep_view().contains(registry@[i as int]@));
        i += 1;
    }
    r
}

/// The text of a trimmed entry up to its first white space: the address of a hosts line.
pub open spec fn first_field(t: Seq<char>) -> Seq<char>
    decreases t.len(),
{
    if t.len() == 0 || is_white_space(t[0]) {
        Seq::empty()
    } else {
        seq![t[0]] + first_field(t.drop_first())
    }
}

/// Whether a trimmed entry has a second white-space separated field.
pub open spec fn has_second_field(t: Seq<char>) -> bool {
    exists|k: int| 0 <= k < t.len() && is_white_space(#[trigger] t[k])
}

/// For each entry of `content` (as `kept_entries` gives them): its first field, if the
/// entry has at least two fields, else `None`. A hosts line is an address and names.
pub fn entry_addresses(content: &str) -> (r: Vec<Option<String>>)
    ensures
        r@.len() == kept_entries(text_lines(content@)).len(),
        forall|k: int|
            0 <= k < r@.len() ==> {
                let t = kept_entries(text_lines(content@))[k];
                &&& (#[trigger] r@[k]) is Some <==> has_second_field(t)
                &&& r@[k] is Some ==> r@[k]->0@ == first_field(t)
            },
{
    let c = chars_of(content);
    let lines = split_lines(&c);
    let mut r: Vec<Option<String>> = Vec::new();
    let mut i: usize = 0;
    while i < lines.len()
        invariant
            i <= lines.len(),
            lines.deep_view() == text_lines(content@),
            r@.len() == kept_entries(lines.deep_view().take(i as int)).len(),
            forall|k: int|
                0 <= k < r@.len() ==> {
                    let t = kept_entries(lines.deep_view().take(i as int))[k];
                    &&& (#[trigger] r@[k]) is Some <==> has_second_field(t)
                    &&& r@[k] is Some ==> r@[k]->0@ == first_field(t)
                },
        decreases lines.len() - i,
    {
        let ghost prev = kept_entries(lines.deep_view().take(i as int));
        proof {
            assert(lines.deep_view().take(i as int + 1).drop_last() =~= lines.deep_view().take(
                i as int,
            ));
        }
        let lc = chars_of(lines[i].as_str());
        let t = trim_chars(&lc);
        if t.len() > 0 && t[0] != '#' {
            let ghost next = kept_entries(lines.deep_view().take(i as int + 1));
            assert(next == prev.push(t@));
            let entry = split_first_field(&t);
            r.push(entry);
            assert forall|k: int| 0 <= k < r@.len() implies {
                let t2 = next[k];
                &&& (#[trigger] r@[k]) is Some <==> has_second_field(t2)
                &&& r@[k] is Some ==> r@[k]->0@ == first_field(t2)
            } by {
                if k < prev.len() {
                    assert(next[k] == prev[k]);
                }
            }
        }
        i += 1;
    }
    proof {
        assert(lines.deep_view().take(lines.len() as int) =~= lines.deep_view());
    }
    r
}

fn split_first_field(t: &Vec<char>) -> (r: Option<String>)
    ensures
        r is Some <==> has_second_field(t@),
        r is Some ==> r->0@ == first_field(t@),
{
    let mut i: usize = 0;
    assert(t@.skip(0) =~= t@);
    assert(t@.take(0) + t@ =~= t@);
    while i < t.len() && !is_whitespace_char(t[i])
        invariant
            i <= t.len(),
            forall|k: int| 0 <= k < i ==> !is_white_space(#[trigger] t@[k]),
            first_field(t@) == t@.take(i as int) + first_field(t@.skip(i as int)),
        decreases t.len() - i,
    {
        let ghost s = t@.skip(i as int);
        assert(s.drop_first() =~= t@.skip(i as int + 1));
        assert(t@.take(i as int) + seq![t@[i as int]] =~= t@.take(i as int + 1));
        assert(t@.take(i as int) + (seq![t@[i as int]] + first_field(s.drop_first()))
            =~= t@.take(i as int + 1) + first_field(t@.skip(i as int + 1)));
        i += 1;
    }
    assert(first_field(t@.skip(i as int)) =~= Seq::<char>::empty());
    assert(t@.take(i as int) + Seq::<char>::empty() =~= t@.take(i as int));
    if i == t.len() {
        None
    } else {
        let f = copy_range(t, 0, i);
        Some(string_of(&f))
    }
}

} // verus!
