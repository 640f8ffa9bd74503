//! Laws that relate the document operations to one another.
use vstd::prelude::*;

use crate::document::{
    has_key, index_of_key, initial_state, keys_unique, lemma_index_of_key,
    lemma_put_block, needs_separator, parse_from, parse_step, parse_text, put_block,
    render, BlockModel, ParseState,
};
use crate::markers::{
    block_lines, end_marker, end_prefix, is_end_marker, is_entry, is_start_marker, kept_entries,
    lemma_end_marker, lemma_marker_facts, lemma_start_marker, marker_suffix, marker_url,
    start_marker, start_prefix, timestamp_line,
};
use crate::globals::{SUBSCRIPTION_TIME_PREFIX, SUBSCRIPTION_TIME_SUFFIX};
use crate::text::{
    decimal, is_digit, is_white_space, join_lines, lemma_lead_ws_bound, lemma_trail_ws_bound,
    lead_ws, scan_lines, strip_cr, text_lines, trail_ws, trim,
};
use crate::transaction::{
    action_for, applied, tx_step, ActionModel, FailedStep, MutationModel, TxModel, TxOutcome,
    TxPhase,
};

verus! {

/// A line that survives being joined with `\n` and split again: it holds no line
/// feed and does not end in a carriage return.
pub open spec fn plain_line(l: Seq<char>) -> bool {
    &&& forall|k: int| 0 <= k < l.len() ==> #[trigger] l[k] != '\n'
    &&& !(l.len() > 0 && l.last() == '\r')
}

/// A block made of one marker pair: its start marker names its URL, its last line is an
/// end marker, and no line between them is a marker.
pub open spec fn well_formed_block(b: BlockModel) -> bool {
    &&& b.1.len() >= 2
    &&& is_start_marker(b.1[0])
    &&& marker_url(b.1[0]) == b.0
    &&& is_end_marker(b.1.last())
    &&& forall|k: int|
        0 < k < b.1.len() - 1 ==> !is_start_marker(#[trigger] b.1[k]) && !is_end_marker(b.1[k])
    &&& forall|k: int| 0 <= k < b.1.len() ==> plain_line(#[trigger] b.1[k])
}

/// A document built only from well-formed marker pairs, whose free lines open no block,
/// and whose text does not end in a blank line.
pub open spec fn well_formed_doc(free: Seq<Seq<char>>, bs: Seq<BlockModel>) -> bool {
    &&& keys_unique(bs)
    &&& forall|i: int| 0 <= i < bs.len() ==> well_formed_block(#[trigger] bs[i])
    &&& forall|k: int| 0 <= k < free.len() ==> plain_line(#[trigger] free[k]) && !is_start_marker(free[k])
    &&& bs.len() == 0 ==> (free.len() == 0 || free.last().len() > 0)
}

/// How many blank separators `render` inserts.
pub open spec fn separator_count(free: Seq<Seq<char>>, bs: Seq<BlockModel>) -> nat
    decreases bs.len(),
{
    if bs.len() == 0 {
        0
    } else {
        separator_count(free, bs.drop_last()) + if needs_separator(render(free, bs.drop_last())) {
            1nat
        } else {
            0nat
        }
    }
}

pub open spec fn blank_lines(n: nat) -> Seq<Seq<char>> {
    Seq::new(n, |i: int| Seq::<char>::empty())
}

proof fn lemma_scan_no_newline(s: Seq<char>)
    requires
        forall|k: int| 0 <= k < s.len() ==> #[trigger] s[k] != '\n',
    ensures
        scan_lines(s) == (Seq::<Seq<char>>::empty(), s),
    decreases s.len(),
{
    if s.len() > 0 {
        let p = s.drop_last();
        assert forall|k: int| 0 <= k < p.len() implies #[trigger] p[k] != '\n' by {
            assert(p[k] == s[k]);
        }
        lemma_scan_no_newline(p);
        assert(p.push(s.last()) =~= s);
    }
}

proof fn lemma_scan_after_newline(p: Seq<char>, s: Seq<char>)
    requires
        forall|k: int| 0 <= k < s.len() ==> #[trigger] s[k] != '\n',
    ensures
        scan_lines(p + seq!['\n'] + s) == (
            scan_lines(p).0.push(strip_cr(scan_lines(p).1)),
            s,
        ),
    decreases s.len(),
{
    let w = p + seq!['\n'] + s;
    if s.len() == 0 {
        assert(w.drop_last() =~= p);
        assert(w.last() == '\n');
    } else {
        let q = s.drop_last();
        assert forall|k: int| 0 <= k < q.len() implies #[trigger] q[k] != '\n' by {
            assert(q[k] == s[k]);
        }
        lemma_scan_after_newline(p, q);
        assert(w.drop_last() =~= p + seq!['\n'] + q);
        assert(w.last() == s.last());
        assert(q.push(s.last()) =~= s);
    }
}

proof fn lemma_scan_join(ls: Seq<Seq<char>>)
    requires
        ls.len() > 0,
        forall|i: int| 0 <= i < ls.len() ==> plain_line(#[trigger] ls[i]),
    ensures
        scan_lines(join_lines(ls)) == (ls.drop_last(), ls.last()),
    decreases ls.len(),
{
    if ls.len() == 1 {
        assert(plain_line(ls[0]));
        lemma_scan_no_newline(ls[0]);
        assert(ls.drop_last() =~= Seq::<Seq<char>>::empty());
    } else {
        let init = ls.drop_last();
        assert forall|i: int| 0 <= i < init.len() implies plain_line(#[trigger] init[i]) by {
            assert(init[i] == ls[i]);
        }
        lemma_scan_join(init);
        assert(plain_line(ls.last()));
        lemma_scan_after_newline(join_lines(init), ls.last());
        assert(plain_line(init.last()));
        assert(init.drop_last().push(init.last()) =~= init);
    }
}

/// Joining lines with `\n` and splitting the text again gives the lines back, when
/// none holds a line break and the last is not blank.
pub proof fn lemma_lines_of_join(ls: Seq<Seq<char>>)
    requires
        forall|i: int| 0 <= i < ls.len() ==> plain_line(#[trigger] ls[i]),
        ls.len() == 0 || ls.last().len() > 0,
    ensures
        text_lines(join_lines(ls)) == ls,
{
    if ls.len() > 0 {
        lemma_scan_join(ls);
        assert(ls.drop_last().push(ls.last()) =~= ls);
    }
}

proof fn lemma_parse_from_concat(st: ParseState, a: Seq<Seq<char>>, b: Seq<Seq<char>>)
    ensures
        parse_from(st, a + b) == parse_from(parse_from(st, a), b),
    decreases b.len(),
{
    if b.len() == 0 {
        assert(a + b =~= a);
    } else {
        lemma_parse_from_concat(st, a, b.drop_last());
        assert((a + b).drop_last() =~= a + b.drop_last());
        assert((a + b).last() == b.last());
    }
}

/// Lines read while no block is open, none of them a start marker, are all free lines.
proof fn lemma_parse_free(st: ParseState, ls: Seq<Seq<char>>)
    requires
        st.open is None,
        forall|k: int| 0 <= k < ls.len() ==> !is_start_marker(#[trigger] ls[k]),
    ensures
        parse_from(st, ls) == (ParseState { free: st.free + ls, blocks: st.blocks, open: None }),
    decreases ls.len(),
{
    if ls.len() == 0 {
        assert(st.free + ls =~= st.free);
    } else {
        let p = ls.drop_last();
        assert forall|k: int| 0 <= k < p.len() implies !is_start_marker(#[trigger] p[k]) by {
            assert(p[k] == ls[k]);
        }
        lemma_parse_free(st, p);
        assert(!is_start_marker(ls.last()));
        assert((st.free + p).push(ls.last()) =~= st.free + ls);
    }
}

/// Reading a well-formed block, with no block open and its URL not yet seen, files it last.
proof fn lemma_parse_block(st: ParseState, b: BlockModel)
    requires
        st.open is None,
        well_formed_block(b),
        !has_key(st.blocks, b.0),
    ensures
        parse_from(st, b.1) == (ParseState {
            free: st.free,
            blocks: st.blocks.push(b),
            open: None,
        }),
{
    let ls = b.1;
    let n = ls.len() as int;
    assert forall|k: int| 1 <= k < n implies parse_from(st, #[trigger] ls.take(k)) == (ParseState {
        free: st.free,
        blocks: st.blocks,
        open: Some((b.0, ls.take(k))),
    }) by {
        lemma_parse_block_prefix(st, b, k);
    }
    assert(ls.take(n).drop_last() =~= ls.take(n - 1));
    assert(ls.take(n - 1).push(ls.last()) =~= ls);
    assert(ls.take(n) =~= ls);
    lemma_index_of_key(st.blocks, b.0);
    let last = ls.last();
    assert(!is_start_marker(last)) by {
        lemma_marker_facts();
        assert(last.subrange(0, 31)[6] == 'x' ==> last[6] == 'x');
        assert(last.subrange(0, 34)[6] == last[6]);
    }
    assert(parse_from(st, ls.take(n)) == parse_step(parse_from(st, ls.take(n - 1)), last));
}

proof fn lemma_parse_block_prefix(st: ParseState, b: BlockModel, k: int)
    requires
        st.open is None,
        well_formed_block(b),
        1 <= k < b.1.len(),
    ensures
        parse_from(st, b.1.take(k)) == (ParseState {
            free: st.free,
            blocks: st.blocks,
            open: Some((b.0, b.1.take(k))),
        }),
    decreases k,
{
    let ls = b.1;
    assert(ls.take(k).drop_last() =~= ls.take(k - 1));
    if k == 1 {
        assert(ls.take(0) =~= Seq::<Seq<char>>::empty());
        assert(seq![ls[0]] =~= ls.take(1));
    } else {
        lemma_parse_block_prefix(st, b, k - 1);
        assert(!is_start_marker(ls[k - 1]) && !is_end_marker(ls[k - 1]));
        assert(ls.take(k - 1).push(ls[k - 1]) =~= ls.take(k));
    }
}

proof fn lemma_render_plain(free: Seq<Seq<char>>, bs: Seq<BlockModel>)
    requires
        well_formed_doc(free, bs),
    ensures
        forall|i: int|
            0 <= i < render(free, bs).len() ==> plain_line(#[trigger] render(free, bs)[i]),
        render(free, bs).len() == 0 || render(free, bs).last().len() > 0,
    decreases bs.len(),
{
    if bs.len() > 0 {
        let p = bs.drop_last();
        assert(well_formed_doc(free, p) || p.len() == 0) by {
            assert forall|i: int, j: int|
                0 <= i < p.len() && 0 <= j < p.len() && i != j implies (#[trigger] p[i]).0 != (
                #[trigger] p[j]).0 by {
                assert(p[i] == bs[i] && p[j] == bs[j]);
            }
            assert forall|i: int| 0 <= i < p.len() implies well_formed_block(#[trigger] p[i]) by {
                assert(p[i] == bs[i]);
            }
        }
        if p.len() > 0 {
            lemma_render_plain(free, p);
        }
        let acc = render(free, p);
        let sep = if needs_separator(acc) {
            acc.push(Seq::empty())
        } else {
            acc
        };
        let b = bs.last();
        assert(well_formed_block(b));
        let r = render(free, bs);
        assert(r == sep + b.1);
        assert forall|i: int| 0 <= i < r.len() implies plain_line(#[trigger] r[i]) by {
            if i < sep.len() {
                if i < acc.len() {
                    assert(r[i] == acc[i]);
                } else {
                    assert(r[i] == Seq::<char>::empty());
                }
            } else {
                assert(r[i] == b.1[i - sep.len()]);
            }
        }
        assert(r.last() == b.1.last());
        lemma_marker_facts();
        assert(b.1.last().len() >= 34);
    }
}

proof fn lemma_parse_render(free: Seq<Seq<char>>, bs: Seq<BlockModel>, n: int)
    requires
        well_formed_doc(free, bs),
        0 <= n <= bs.len(),
    ensures
        parse_from(initial_state(), render(free, bs.take(n))) == (ParseState {
            free: free + blank_lines(separator_count(free, bs.take(n))),
            blocks: bs.take(n),
            open: None,
        }),
    decreases n,
{
    let t = bs.take(n);
    if n == 0 {
        assert(t =~= Seq::<BlockModel>::empty());
        assert forall|k: int| 0 <= k < free.len() implies !is_start_marker(#[trigger] free[k]) by {}
        lemma_parse_free(initial_state(), free);
        assert(Seq::<Seq<char>>::empty() + free =~= free);
        assert(free + blank_lines(0) =~= free);
    } else {
        lemma_parse_render(free, bs, n - 1);
        let p = bs.take(n - 1);
        assert(t.drop_last() =~= p);
        let acc = render(free, p);
        let st0 = parse_from(initial_state(), acc);
        let c = separator_count(free, p);
        let sep = if needs_separator(acc) {
            acc.push(Seq::empty())
        } else {
            acc
        };
        lemma_marker_facts();
        let st1 = parse_from(initial_state(), sep);
        let c1 = separator_count(free, t);
        assert(st1 == (ParseState { free: free + blank_lines(c1), blocks: p, open: None })) by {
            if needs_separator(acc) {
                assert(sep.drop_last() =~= acc);
                let e = Seq::<char>::empty();
                assert(!is_start_marker(e));
                assert(!is_end_marker(e));
                assert((free + blank_lines(c)).push(e) =~= free + blank_lines(c1));
            } else {
                assert(c1 == c);
            }
        }
        let b = bs[n - 1];
        assert(t.last() == b);
        assert(well_formed_block(b));
        assert(!has_key(p, b.0)) by {
            if has_key(p, b.0) {
                let i = choose|i: int| 0 <= i < p.len() && (#[trigger] p[i]).0 == b.0;
                assert(bs[i] == p[i]);
            }
        }
        lemma_parse_block(st1, b);
        lemma_parse_from_concat(initial_state(), sep, b.1);
        assert(p.push(b) =~= t);
    }
}

/// Round trip: a document built only from well-formed marker pairs reads back from its
/// text with the same blocks in the same order, and the same free lines followed by
/// the blank separators that writing it inserted.
pub proof fn lemma_round_trip(free: Seq<Seq<char>>, bs: Seq<BlockModel>)
    requires
        well_formed_doc(free, bs),
    ensures
        parse_text(join_lines(render(free, bs))) == (ParseState {
            free: free + blank_lines(separator_count(free, bs)),
            blocks: bs,
            open: None,
        }),
{
    lemma_render_plain(free, bs);
    lemma_lines_of_join(render(free, bs));
    lemma_parse_render(free, bs, bs.len() as int);
    assert(bs.take(bs.len() as int) =~= bs);
}


/// Uniqueness: subscribing `url` with `c1` and then with `c2` leaves exactly one block
/// for `url`, and it is the block built from `c2`.
pub proof fn lemma_update_leaves_one_block(
    bs: Seq<BlockModel>,
    url: Seq<char>,
    c1: Seq<char>,
    t1: nat,
    c2: Seq<char>,
    t2: nat,
)
    requires
        keys_unique(bs),
    ensures
        keys_unique(
            put_block(put_block(bs, url, block_lines(url, c1, t1)), url, block_lines(url, c2, t2)),
        ),
        has_key(
            put_block(put_block(bs, url, block_lines(url, c1, t1)), url, block_lines(url, c2, t2)),
            url,
        ),
        forall|i: int|
            0 <= i < put_block(
                put_block(bs, url, block_lines(url, c1, t1)),
                url,
                block_lines(url, c2, t2),
            ).len() && (#[trigger] put_block(
                put_block(bs, url, block_lines(url, c1, t1)),
                url,
                block_lines(url, c2, t2),
            )[i]).0 == url ==> put_block(
                put_block(bs, url, block_lines(url, c1, t1)),
                url,
                block_lines(url, c2, t2),
            )[i].1 == block_lines(url, c2, t2),
{
    let b1 = put_block(bs, url, block_lines(url, c1, t1));
    lemma_put_block(bs, url, block_lines(url, c1, t1));
    lemma_put_block(b1, url, block_lines(url, c2, t2));
    lemma_index_of_key(put_block(b1, url, block_lines(url, c2, t2)), url);
}

/// Storing twice under one URL is storing once, with the later lines.
pub proof fn lemma_put_twice(
    bs: Seq<BlockModel>,
    url: Seq<char>,
    l1: Seq<Seq<char>>,
    l2: Seq<Seq<char>>,
)
    requires
        keys_unique(bs),
    ensures
        put_block(put_block(bs, url, l1), url, l2) == put_block(bs, url, l2),
{
    lemma_index_of_key(bs, url);
    lemma_put_block(bs, url, l1);
    let b1 = put_block(bs, url, l1);
    lemma_index_of_key(b1, url);
    let i = index_of_key(bs, url);
    if i >= 0 {
        assert(b1[i].0 == url);
        assert(b1.update(i, (url, l2)) =~= bs.update(i, (url, l2)));
    } else {
        assert(b1[bs.len() as int].0 == url);
        assert(b1.update(bs.len() as int, (url, l2)) =~= bs.push((url, l2)));
    }
}

/// `a` and `b` have the same lines but where `a` holds the time comment of `t1`
/// and `b` that of `t2`.
pub open spec fn differ_only_in_timestamp(
    a: Seq<Seq<char>>,
    b: Seq<Seq<char>>,
    t1: nat,
    t2: nat,
) -> bool {
    &&& a.len() == b.len()
    &&& forall|i: int|
        0 <= i < a.len() ==> #[trigger] a[i] == b[i] || (a[i] == timestamp_line(t1) && b[i]
            == timestamp_line(t2))
}

proof fn lemma_timestamp_line_not_blank(t: nat)
    ensures
        timestamp_line(t).len() > 0,
{
    reveal_strlit("# 订阅时间: ");
    assert(SUBSCRIPTION_TIME_PREFIX@.len() > 0);
}

proof fn lemma_render_differ(
    free: Seq<Seq<char>>,
    a: Seq<BlockModel>,
    b: Seq<BlockModel>,
    t1: nat,
    t2: nat,
)
    requires
        a.len() == b.len(),
        forall|i: int|
            0 <= i < a.len() ==> differ_only_in_timestamp(#[trigger] a[i].1, b[i].1, t1, t2),
    ensures
        differ_only_in_timestamp(render(free, a), render(free, b), t1, t2),
    decreases a.len(),
{
    if a.len() > 0 {
        let pa = a.drop_last();
        let pb = b.drop_last();
        assert forall|i: int| 0 <= i < pa.len() implies differ_only_in_timestamp(
            #[trigger] pa[i].1,
            pb[i].1,
            t1,
            t2,
        ) by {
            assert(pa[i] == a[i] && pb[i] == b[i]);
        }
        lemma_render_differ(free, pa, pb, t1, t2);
        let xa = render(free, pa);
        let xb = render(free, pb);
        lemma_timestamp_line_not_blank(t1);
        lemma_timestamp_line_not_blank(t2);
        if xa.len() > 0 {
            assert(xa[xa.len() - 1] == xb[xa.len() - 1] || (xa[xa.len() - 1] == timestamp_line(t1)
                && xb[xa.len() - 1] == timestamp_line(t2)));
        }
        assert(needs_separator(xa) == needs_separator(xb));
        let sa = if needs_separator(xa) {
            xa.push(Seq::empty())
        } else {
            xa
        };
        let sb = if needs_separator(xb) {
            xb.push(Seq::empty())
        } else {
            xb
        };
        let ra = render(free, a);
        let rb = render(free, b);
        assert(differ_only_in_timestamp(a.last().1, b.last().1, t1, t2));
        assert forall|i: int| 0 <= i < ra.len() implies #[trigger] ra[i] == rb[i] || (ra[i]
            == timestamp_line(t1) && rb[i] == timestamp_line(t2)) by {
            if i < sa.len() {
                if i < xa.len() {
                    assert(ra[i] == xa[i] && rb[i] == xb[i]);
                }
            } else {
                assert(ra[i] == a.last().1[i - sa.len()]);
                assert(rb[i] == b.last().1[i - sa.len()]);
            }
        }
    }
}

/// Idempotence: subscribing `url` twice with the same content gives the document that
/// subscribing once, at the later time, gives; and its lines differ from those after
/// the first subscription only in the time comment.
pub proof fn lemma_resubscribe_idempotent(
    free: Seq<Seq<char>>,
    bs: Seq<BlockModel>,
    url: Seq<char>,
    content: Seq<char>,
    t1: nat,
    t2: nat,
)
    requires
        keys_unique(bs),
    ensures
        put_block(
            put_block(bs, url, block_lines(url, content, t1)),
            url,
            block_lines(url, content, t2),
        ) == put_block(bs, url, block_lines(url, content, t2)),
        differ_only_in_timestamp(
            render(free, put_block(bs, url, block_lines(url, content, t1))),
            render(free, put_block(bs, url, block_lines(url, content, t2))),
            t1,
            t2,
        ),
{
    lemma_put_twice(bs, url, block_lines(url, content, t1), block_lines(url, content, t2));
    let l1 = block_lines(url, content, t1);
    let l2 = block_lines(url, content, t2);
    assert(differ_only_in_timestamp(l1, l2, t1, t2)) by {
        assert forall|i: int| 0 <= i < l1.len() implies #[trigger] l1[i] == l2[i] || (l1[i]
            == timestamp_line(t1) && l2[i] == timestamp_line(t2)) by {
            if i != 1 {
                assert(l1[i] == l2[i]);
            }
        }
    }
    lemma_index_of_key(bs, url);
    let a = put_block(bs, url, l1);
    let b = put_block(bs, url, l2);
    assert forall|i: int| 0 <= i < a.len() implies differ_only_in_timestamp(
        #[trigger] a[i].1,
        b[i].1,
        t1,
        t2,
    ) by {
        if a[i] == b[i] {
            assert forall|k: int| 0 <= k < a[i].1.len() implies #[trigger] a[i].1[k] == b[i].1[k]
                || (a[i].1[k] == timestamp_line(t1) && b[i].1[k] == timestamp_line(t2)) by {}
        }
    }
    lemma_render_differ(free, a, b, t1, t2);
}

proof fn lemma_free_grows(st: ParseState, ls: Seq<Seq<char>>)
    ensures
        st.free.len() <= parse_from(st, ls).free.len(),
        forall|k: int| 0 <= k < st.free.len() ==> #[trigger] parse_from(st, ls).free[k] == st.free[k],
    decreases ls.len(),
{
    if ls.len() > 0 {
        lemma_free_grows(st, ls.drop_last());
    }
}

proof fn lemma_render_keeps_free(free: Seq<Seq<char>>, bs: Seq<BlockModel>)
    ensures
        free.len() <= render(free, bs).len(),
        forall|k: int| 0 <= k < free.len() ==> #[trigger] render(free, bs)[k] == free[k],
    decreases bs.len(),
{
    if bs.len() > 0 {
        lemma_render_keeps_free(free, bs.drop_last());
    }
}

/// Tolerant parsing: every line before the first start marker, an end marker with no
/// block to close included, is read as a free line, and is written back unchanged at
/// the same place.
pub proof fn lemma_lines_before_blocks_kept(s: Seq<char>, i: int)
    requires
        0 <= i < text_lines(s).len(),
        forall|k: int| 0 <= k <= i ==> !is_start_marker(#[trigger] text_lines(s)[k]),
    ensures
        i < parse_text(s).free.len(),
        parse_text(s).free[i] == text_lines(s)[i],
        render(parse_text(s).free, parse_text(s).blocks)[i] == text_lines(s)[i],
{
    let ls = text_lines(s);
    let a = ls.take(i + 1);
    let b = ls.skip(i + 1);
    assert(a + b =~= ls);
    assert forall|k: int| 0 <= k < a.len() implies !is_start_marker(#[trigger] a[k]) by {
        assert(a[k] == ls[k]);
    }
    lemma_parse_free(initial_state(), a);
    let st = parse_from(initial_state(), a);
    assert(st.free =~= a);
    lemma_parse_from_concat(initial_state(), a, b);
    lemma_free_grows(st, b);
    let r = parse_text(s);
    assert(r.free == parse_from(st, b).free);
    lemma_render_keeps_free(r.free, r.blocks);
}


/// No line is both an end marker and a start marker.
pub proof fn lemma_end_marker_is_no_start_marker(l: Seq<char>)
    requires
        is_end_marker(l),
    ensures
        !is_start_marker(l),
{
    lemma_marker_facts();
    assert(l.subrange(0, 34)[6] == l[6]);
    if is_start_marker(l) {
        assert(l.subrange(0, 31)[6] == l[6]);
    }
}

/// Tolerant parsing: an end marker read while no block is open is a free line, and it
/// is written back unchanged, at the place among the free lines it was read into.
pub proof fn lemma_orphan_end_marker_kept(s: Seq<char>, i: int)
    requires
        0 <= i < text_lines(s).len(),
        is_end_marker(text_lines(s)[i]),
        parse_from(initial_state(), text_lines(s).take(i)).open is None,
    ensures
        parse_from(initial_state(), text_lines(s).take(i)).free.len() < parse_text(s).free.len(),
        parse_text(s).free[parse_from(initial_state(), text_lines(s).take(i)).free.len() as int]
            == text_lines(s)[i],
        render(parse_text(s).free, parse_text(s).blocks)[parse_from(
            initial_state(),
            text_lines(s).take(i),
        ).free.len() as int] == text_lines(s)[i],
{
    let ls = text_lines(s);
    let st = parse_from(initial_state(), ls.take(i));
    lemma_end_marker_is_no_start_marker(ls[i]);
    assert(ls.take(i + 1).drop_last() =~= ls.take(i));
    let st1 = parse_from(initial_state(), ls.take(i + 1));
    assert(st1.free == st.free.push(ls[i]));
    let b = ls.skip(i + 1);
    assert(ls.take(i + 1) + b =~= ls);
    lemma_parse_from_concat(initial_state(), ls.take(i + 1), b);
    lemma_free_grows(st1, b);
    let r = parse_text(s);
    assert(r.free == parse_from(st1, b).free);
    assert(st1.free[st.free.len() as int] == ls[i]);
    lemma_render_keeps_free(r.free, r.blocks);
}

pub open spec fn no_line_feed(l: Seq<char>) -> bool {
    forall|k: int| 0 <= k < l.len() ==> #[trigger] l[k] != '\n'
}

proof fn lemma_scan_no_line_feed(s: Seq<char>)
    ensures
        forall|i: int|
            0 <= i < scan_lines(s).0.len() ==> no_line_feed(#[trigger] scan_lines(s).0[i]),
        no_line_feed(scan_lines(s).1),
    decreases s.len(),
{
    if s.len() > 0 {
        lemma_scan_no_line_feed(s.drop_last());
        let prev = scan_lines(s.drop_last());
        if s.last() == '\n' {
            let l = strip_cr(prev.1);
            assert(no_line_feed(l)) by {
                assert forall|k: int| 0 <= k < l.len() implies #[trigger] l[k] != '\n' by {
                    assert(l[k] == prev.1[k]);
                }
            }
            let d = prev.0.push(l);
            assert forall|i: int| 0 <= i < d.len() implies no_line_feed(#[trigger] d[i]) by {
                if i < prev.0.len() {
                    assert(d[i] == prev.0[i]);
                }
            }
        } else {
            let c = prev.1.push(s.last());
            assert forall|k: int| 0 <= k < c.len() implies #[trigger] c[k] != '\n' by {
                if k < prev.1.len() {
                    assert(c[k] == prev.1[k]);
                }
            }
        }
    }
}

proof fn lemma_text_lines_no_line_feed(s: Seq<char>)
    ensures
        forall|i: int|
            0 <= i < text_lines(s).len() ==> no_line_feed(#[trigger] text_lines(s)[i]),
{
    lemma_scan_no_line_feed(s);
    let sc = scan_lines(s);
    let t = text_lines(s);
    assert forall|i: int| 0 <= i < t.len() implies no_line_feed(#[trigger] t[i]) by {
        if i < sc.0.len() {
            assert(t[i] == sc.0[i]);
        }
    }
}

proof fn lemma_trail_ws_last(t: Seq<char>)
    requires
        trail_ws(t) < t.len(),
    ensures
        !is_white_space(t[t.len() - trail_ws(t) - 1]),
    decreases t.len(),
{
    if t.len() > 0 && is_white_space(t.last()) {
        let p = t.drop_last();
        lemma_trail_ws_last(p);
        assert(p[p.len() - trail_ws(p) - 1] == t[t.len() - trail_ws(t) - 1]);
    }
}

/// A trimmed line without line feeds survives being joined and split again.
proof fn lemma_trim_plain(l: Seq<char>)
    requires
        no_line_feed(l),
    ensures
        plain_line(trim(l)),
{
    lemma_lead_ws_bound(l);
    let t = l.subrange(lead_ws(l) as int, l.len() as int);
    lemma_trail_ws_bound(t);
    let r = trim(l);
    assert forall|k: int| 0 <= k < r.len() implies #[trigger] r[k] != '\n' by {
        assert(r[k] == l[lead_ws(l) + k]);
    }
    if r.len() > 0 {
        lemma_trail_ws_last(t);
        assert(r.last() == t[t.len() - trail_ws(t) - 1]);
        assert(is_white_space('\r')) by {
            assert(('\r' as u32) == 13);
        }
    }
}

proof fn lemma_kept_entries(ls: Seq<Seq<char>>)
    requires
        forall|i: int| 0 <= i < ls.len() ==> no_line_feed(#[trigger] ls[i]),
    ensures
        forall|k: int|
            0 <= k < kept_entries(ls).len() ==> plain_line(#[trigger] kept_entries(ls)[k])
                && is_entry(kept_entries(ls)[k]),
    decreases ls.len(),
{
    if ls.len() > 0 {
        let p = ls.drop_last();
        assert forall|i: int| 0 <= i < p.len() implies no_line_feed(#[trigger] p[i]) by {
            assert(p[i] == ls[i]);
        }
        lemma_kept_entries(p);
        assert(no_line_feed(ls.last()));
        lemma_trim_plain(ls.last());
        let prev = kept_entries(p);
        let cur = kept_entries(ls);
        assert forall|k: int| 0 <= k < cur.len() implies plain_line(#[trigger] cur[k]) && is_entry(
            cur[k],
        ) by {
            if k < prev.len() {
                assert(cur[k] == prev[k]);
            }
        }
    }
}

/// A line whose first character is not `#` is no marker.
proof fn lemma_not_hash_no_marker(l: Seq<char>)
    requires
        l.len() == 0 || l[0] != '#',
    ensures
        !is_start_marker(l),
        !is_end_marker(l),
{
    lemma_marker_facts();
    if l.len() > 0 {
        if l.len() >= 31 {
            assert(l.subrange(0, 31)[0] == l[0]);
        }
        if l.len() >= 34 {
            assert(l.subrange(0, 34)[0] == l[0]);
        }
    }
}

proof fn lemma_decimal_digits(n: nat)
    ensures
        forall|k: int| 0 <= k < decimal(n).len() ==> is_digit(#[trigger] decimal(n)[k]),
    decreases n,
{
    if n >= 10 {
        lemma_decimal_digits(n / 10);
        let d = decimal(n);
        let p = decimal(n / 10);
        assert forall|k: int| 0 <= k < d.len() implies is_digit(#[trigger] d[k]) by {
            if k < p.len() {
                assert(d[k] == p[k]);
            }
        }
    }
}

proof fn lemma_timestamp_line_plain(now: nat)
    ensures
        plain_line(timestamp_line(now)),
        !is_start_marker(timestamp_line(now)),
        !is_end_marker(timestamp_line(now)),
{
    reveal_strlit("# 订阅时间: ");
    reveal_strlit(" (UTC timestamp)");
    lemma_marker_facts();
    lemma_decimal_digits(now);
    let p = SUBSCRIPTION_TIME_PREFIX@;
    let d = decimal(now);
    let q = SUBSCRIPTION_TIME_SUFFIX@;
    let l = timestamp_line(now);
    assert(p.len() == 8);
    assert(q.len() == 16);
    assert(forall|k: int| 0 <= k < p.len() ==> #[trigger] p[k] != '\n');
    assert(forall|k: int| 0 <= k < q.len() ==> #[trigger] q[k] != '\n');
    assert forall|k: int| 0 <= k < l.len() implies #[trigger] l[k] != '\n' by {
        if k < p.len() {
            assert(l[k] == p[k]);
        } else if k < p.len() + d.len() {
            assert(l[k] == d[k - p.len()]);
            assert(is_digit(d[k - p.len()]));
        } else {
            assert(l[k] == q[k - p.len() - d.len()]);
        }
    }
    assert(l.last() == q[15]);
    assert(l[2] == p[2]);
    if l.len() >= 31 {
        assert(l.subrange(0, 31)[2] == l[2]);
    }
    if l.len() >= 34 {
        assert(l.subrange(0, 34)[2] == l[2]);
    }
}

proof fn lemma_marker_line_plain(prefix: Seq<char>, url: Seq<char>)
    requires
        prefix == start_prefix() || prefix == end_prefix(),
        no_line_feed(url),
    ensures
        plain_line(prefix + url + marker_suffix()),
{
    reveal_strlit("# === xdev hosts subscription: ");
    reveal_strlit("# === 结束 xdev hosts subscription: ");
    reveal_strlit(" ===");
    lemma_marker_facts();
    let s = marker_suffix();
    let l = prefix + url + s;
    assert(forall|k: int| 0 <= k < prefix.len() ==> #[trigger] prefix[k] != '\n');
    assert(forall|k: int| 0 <= k < s.len() ==> #[trigger] s[k] != '\n');
    assert forall|k: int| 0 <= k < l.len() implies #[trigger] l[k] != '\n' by {
        if k < prefix.len() {
            assert(l[k] == prefix[k]);
        } else if k < prefix.len() + url.len() {
            assert(l[k] == url[k - prefix.len()]);
        } else {
            assert(l[k] == s[k - prefix.len() - url.len()]);
        }
    }
    assert(l.last() == s[3]);
}

/// The block that subscribing builds is one well-formed marker pair, when its URL holds
/// no line feed.
pub proof fn lemma_built_block_well_formed(url: Seq<char>, content: Seq<char>, now: nat)
    requires
        no_line_feed(url),
    ensures
        well_formed_block((url, block_lines(url, content, now))),
{
    let b = block_lines(url, content, now);
    let e = kept_entries(text_lines(content));
    lemma_start_marker(url);
    lemma_end_marker(url);
    lemma_text_lines_no_line_feed(content);
    lemma_kept_entries(text_lines(content));
    lemma_timestamp_line_plain(now);
    lemma_marker_line_plain(start_prefix(), url);
    lemma_marker_line_plain(end_prefix(), url);
    lemma_not_hash_no_marker(Seq::<char>::empty());
    let n = b.len();
    assert(n == e.len() + 5);
    assert(b[0] == start_marker(url));
    assert(b[1] == timestamp_line(now));
    assert(b[2] == Seq::<char>::empty());
    assert(b[n - 2] == Seq::<char>::empty());
    assert(b[n - 1] == end_marker(url));
    assert(plain_line(Seq::<char>::empty()));
    assert forall|k: int| 3 <= k < n - 2 implies #[trigger] b[k] == e[k - 3] by {}
    assert forall|k: int| 0 < k < n - 1 implies !is_start_marker(#[trigger] b[k]) && !is_end_marker(
        b[k],
    ) by {
        if 3 <= k < n - 2 {
            assert(b[k] == e[k - 3]);
            assert(is_entry(e[k - 3]));
            lemma_not_hash_no_marker(e[k - 3]);
        }
    }
    assert forall|k: int| 0 <= k < n implies plain_line(#[trigger] b[k]) by {
        if 3 <= k < n - 2 {
            assert(b[k] == e[k - 3]);
        }
    }
}

/// Subscribing keeps a document made of well-formed marker pairs well formed, so the
/// round trip holds of every document built by subscribing URLs without line feeds.
pub proof fn lemma_subscribe_keeps_well_formed(
    free: Seq<Seq<char>>,
    bs: Seq<BlockModel>,
    url: Seq<char>,
    content: Seq<char>,
    now: nat,
)
    requires
        well_formed_doc(free, bs),
        no_line_feed(url),
    ensures
        well_formed_doc(free, put_block(bs, url, block_lines(url, content, now))),
{
    lemma_built_block_well_formed(url, content, now);
    lemma_put_block(bs, url, block_lines(url, content, now));
    lemma_index_of_key(bs, url);
    let r = put_block(bs, url, block_lines(url, content, now));
    assert forall|i: int| 0 <= i < r.len() implies well_formed_block(#[trigger] r[i]) by {
        if r[i] != (url, block_lines(url, content, now)) {
            assert(r[i] == bs[i]);
        }
    }
}

/// What the hosts file holds after an action succeeded (`ok`) or failed: a write that
/// fails leaves the file as it was, since the writer replaces it atomically.
pub open spec fn file_after(file: Seq<char>, a: ActionModel, ok: bool) -> Seq<char> {
    if ok {
        match a {
            ActionModel::WriteFile(c) => c,
            ActionModel::RestoreFile(c) => c,
            _ => file,
        }
    } else {
        file
    }
}

/// The coordinator and the file after the caller has reported `evs`, one per action.
pub open spec fn run(t: TxModel, file: Seq<char>, evs: Seq<bool>) -> (TxModel, Seq<char>)
    decreases evs.len(),
{
    if evs.len() == 0 {
        (t, file)
    } else {
        let prev = run(t, file, evs.drop_last());
        (tx_step(prev.0, evs.last()), file_after(prev.1, action_for(prev.0), evs.last()))
    }
}

pub open spec fn start_model(original: Seq<char>, m: MutationModel) -> TxModel {
    TxModel {
        phase: TxPhase::Start,
        original,
        updated: Seq::empty(),
        changed: false,
        mutation: m,
    }
}

/// The text the file holds once the mutation is committed.
pub open spec fn committed_text(t: TxModel) -> Seq<char> {
    if t.changed {
        t.updated
    } else {
        t.original
    }
}

/// What the file holds in each phase.
pub open spec fn file_matches_phase(t: TxModel, file: Seq<char>) -> bool {
    match t.phase {
        TxPhase::Start => file == t.original,
        TxPhase::Applied => file == t.original && t.changed,
        TxPhase::Committed => file == committed_text(t),
        TxPhase::RollingBack(FailedStep::Write) => file == t.original,
        TxPhase::RollingBack(FailedStep::Registry) => file == committed_text(t),
        TxPhase::Finished(TxOutcome::Succeeded) => file == committed_text(t),
        TxPhase::Finished(TxOutcome::BackupFailed) => file == t.original,
        TxPhase::Finished(TxOutcome::RolledBack(_)) => file == t.original,
        TxPhase::Finished(TxOutcome::RollbackFailed(FailedStep::Write)) => file == t.original,
        TxPhase::Finished(TxOutcome::RollbackFailed(FailedStep::Registry)) => file
            == committed_text(t),
    }
}

/// Whatever the caller reports, the file holds its text from before the operation
/// unless the operation succeeded, or failed at the registry with the rollback failing
/// too; in those two cases it holds the new text.
pub proof fn lemma_saga_file_consistent(original: Seq<char>, m: MutationModel, evs: Seq<bool>)
    ensures
        file_matches_phase(run(start_model(original, m), original, evs).0, run(
            start_model(original, m),
            original,
            evs,
        ).1),
        run(start_model(original, m), original, evs).0.original == original,
        run(start_model(original, m), original, evs).0.phase != TxPhase::Start ==> (run(
            start_model(original, m),
            original,
            evs,
        ).0.updated, run(start_model(original, m), original, evs).0.changed) == applied(
            original,
            m,
        ) || run(start_model(original, m), original, evs).0.phase == TxPhase::Finished(
            TxOutcome::BackupFailed,
        ),
    decreases evs.len(),
{
    if evs.len() > 0 {
        lemma_saga_file_consistent(original, m, evs.drop_last());
    }
}

/// Rollback: when the file was written and the registry then could not be updated,
/// restoring the backup leaves the file exactly as it was before the operation.
pub proof fn lemma_registry_failure_rolls_back(original: Seq<char>, m: MutationModel)
    requires
        applied(original, m).1,
    ensures
        run(start_model(original, m), original, seq![true, true, false]).0.phase
            == TxPhase::RollingBack(FailedStep::Registry),
        action_for(run(start_model(original, m), original, seq![true, true, false]).0)
            == ActionModel::RestoreFile(original),
        run(start_model(original, m), original, seq![true, true, false, true]).0.phase
            == TxPhase::Finished(TxOutcome::RolledBack(FailedStep::Registry)),
        run(start_model(original, m), original, seq![true, true, false, true]).1 == original,
{
    let t0 = start_model(original, m);
    let e1 = seq![true];
    let e2 = seq![true, true];
    let e3 = seq![true, true, false];
    let e4 = seq![true, true, false, true];
    assert(e1.drop_last() =~= Seq::<bool>::empty());
    assert(e2.drop_last() =~= e1);
    assert(e3.drop_last() =~= e2);
    assert(e4.drop_last() =~= e3);
    assert(run(t0, original, Seq::<bool>::empty()) == (t0, original));
    let r1 = run(t0, original, e1);
    assert(r1.0.phase == TxPhase::Applied && r1.1 == original);
    let r2 = run(t0, original, e2);
    assert(r2.0.phase == TxPhase::Committed && r2.1 == applied(original, m).0);
    let r3 = run(t0, original, e3);
    assert(r3.0.phase == TxPhase::RollingBack(FailedStep::Registry));
    assert(r3.0.original == original);
}

/// A failed backup ends the operation with the file untouched, whatever follows.
pub proof fn lemma_backup_failure_touches_nothing(
    original: Seq<char>,
    m: MutationModel,
    rest: Seq<bool>,
)
    ensures
        run(start_model(original, m), original, seq![false] + rest).0.phase == TxPhase::Finished(
            TxOutcome::BackupFailed,
        ),
        run(start_model(original, m), original, seq![false] + rest).1 == original,
    decreases rest.len(),
{
    let t0 = start_model(original, m);
    if rest.len() == 0 {
        assert(seq![false] + rest =~= seq![false]);
        assert(seq![false].drop_last() =~= Seq::<bool>::empty());
        assert(run(t0, original, Seq::<bool>::empty()) == (t0, original));
    } else {
        lemma_backup_failure_touches_nothing(original, m, rest.drop_last());
        let e = seq![false] + rest;
        assert(e.drop_last() =~= seq![false] + rest.drop_last());
        let prev = run(t0, original, e.drop_last());
        assert(prev.0.phase == TxPhase::Finished(TxOutcome::BackupFailed));
        assert(run(t0, original, e) == (tx_step(prev.0, e.last()), file_after(
            prev.1,
            action_for(prev.0),
            e.last(),
        )));
    }
}

} // verus!
