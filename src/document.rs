//! The hosts document: free lines plus URL-keyed subscription blocks, kept in
//! the order in which their URLs first appeared.
use vstd::prelude::*;

use crate::markers::{
    extract_subscription_url_from_start_marker, is_end_marker, is_start_marker,
    is_subscription_end_marker, marker_url, subscription_block_lines, block_lines,
};
use crate::text::{chars_of, join_lines, join_strings, split_lines, text_lines};

verus! {

/// A block as the model sees it: its URL and its lines.
pub type BlockModel = (Seq<char>, Seq<Seq<char>>);

/// One subscription block of the document.
pub struct SubscriptionBlock {
    pub url: String,
    pub lines: Vec<String>,
}

impl SubscriptionBlock {
    pub open spec fn model(&self) -> BlockModel {
        (self.url@, self.lines.deep_view())
    }
}

/// Index of the block keyed by `url` (the last one, should there be several), or -1.
pub open spec fn index_of_key(bs: Seq<BlockModel>, url: Seq<char>) -> int
    decreases bs.len(),
{
    if bs.len() == 0 {
        -1
    } else if bs.last().0 == url {
        bs.len() - 1
    } else {
        index_of_key(bs.drop_last(), url)
    }
}

pub open spec fn has_key(bs: Seq<BlockModel>, url: Seq<char>) -> bool {
    exists|i: int| 0 <= i < bs.len() && (#[trigger] bs[i]).0 == url
}

/// At most one block per URL.
pub open spec fn keys_unique(bs: Seq<BlockModel>) -> bool {
    forall|i: int, j: int| 0 <= i < bs.len() && 0 <= j < bs.len() && i != j ==> (#[trigger] bs[i]).0
        != (#[trigger] bs[j]).0
}

/// The blocks after storing `ls` under `url`: in place if the URL is present, else at the end.
pub open spec fn put_block(bs: Seq<BlockModel>, url: Seq<char>, ls: Seq<Seq<char>>) -> Seq<
    BlockModel,
> {
    let i = index_of_key(bs, url);
    if i >= 0 {
        bs.update(i, (url, ls))
    } else {
        bs.push((url, ls))
    }
}

/// The blocks without the one keyed by `url`.
pub open spec fn drop_block(bs: Seq<BlockModel>, url: Seq<char>) -> Seq<BlockModel> {
    let i = index_of_key(bs, url);
    if i >= 0 {
        bs.remove(i)
    } else {
        bs
    }
}

pub proof fn lemma_index_of_key(bs: Seq<BlockModel>, url: Seq<char>)
    ensures
        -1 <= index_of_key(bs, url) < bs.len(),
        index_of_key(bs, url) >= 0 ==> bs[index_of_key(bs, url)].0 == url,
        index_of_key(bs, url) < 0 <==> !has_key(bs, url),
        keys_unique(bs) ==> forall|i: int|
            0 <= i < bs.len() && (#[trigger] bs[i]).0 == url ==> i == index_of_key(bs, url),
    decreases bs.len(),
{
    if bs.len() > 0 {
        let p = bs.drop_last();
        lemma_index_of_key(p, url);
        if bs.last().0 != url {
            if has_key(bs, url) {
                let i = choose|i: int| 0 <= i < bs.len() && (#[trigger] bs[i]).0 == url;
                assert(p[i].0 == url);
            }
            if keys_unique(bs) {
                assert(keys_unique(p)) by {
                    assert forall|i: int, j: int|
                        0 <= i < p.len() && 0 <= j < p.len() && i != j implies (#[trigger] p[i]).0
                        != (#[trigger] p[j]).0 by {
                        assert(bs[i] == p[i] && bs[j] == p[j]);
                    }
                }
                assert forall|i: int| 0 <= i < bs.len() && (#[trigger] bs[i]).0 == url implies i
                    == index_of_key(bs, url) by {
                    assert(p[i] == bs[i]);
                }
            }
        }
    }
}

pub proof fn lemma_put_block(bs: Seq<BlockModel>, url: Seq<char>, ls: Seq<Seq<char>>)
    requires
        keys_unique(bs),
    ensures
        keys_unique(put_block(bs, url, ls)),
        has_key(put_block(bs, url, ls), url),
        index_of_key(put_block(bs, url, ls), url) >= 0,
        put_block(bs, url, ls)[index_of_key(put_block(bs, url, ls), url)] == (url, ls),
{
    lemma_index_of_key(bs, url);
    let r = put_block(bs, url, ls);
    let i = index_of_key(bs, url);
    let k = if i >= 0 {
        i
    } else {
        bs.len() as int
    };
    assert(r[k].0 == url);
    assert forall|a: int, b: int|
        0 <= a < r.len() && 0 <= b < r.len() && a != b implies (#[trigger] r[a]).0 != (#[trigger] r[
        b]).0 by {
        if a != k && b != k {
            assert(r[a] == bs[a] && r[b] == bs[b]);
        } else if a == k {
            assert(r[b] == bs[b]);
        } else {
            assert(r[a] == bs[a]);
        }
    }
    lemma_index_of_key(r, url);
}

/// One step of reading the document: the lines seen so far split into free lines,
/// finished blocks, and the block still open, if any.
pub struct ParseState {
    pub free: Seq<Seq<char>>,
    pub blocks: Seq<BlockModel>,
    pub open: Option<BlockModel>,
}

pub open spec fn initial_state() -> ParseState {
    ParseState { free: Seq::empty(), blocks: Seq::empty(), open: None }
}

/// Files the open block, if any, under its URL.
pub open spec fn close_open(st: ParseState) -> ParseState {
    match st.open {
        Some(b) => ParseState { free: st.free, blocks: put_block(st.blocks, b.0, b.1), open: None },
        None => st,
    }
}

/// Reading one line. A start marker files any open block and opens a new one; an end
/// marker closes the open block, or is a free line where none is open; any other
/// line goes to the open block, or is free.
pub open spec fn parse_step(st: ParseState, l: Seq<char>) -> ParseState {
    if is_start_marker(l) {
        let c = close_open(st);
        ParseState { free: c.free, blocks: c.blocks, open: Some((marker_url(l), seq![l])) }
    } else if is_end_marker(l) {
        match st.open {
            Some(b) => ParseState {
                free: st.free,
                blocks: put_block(st.blocks, b.0, b.1.push(l)),
                open: None,
            },
            None => ParseState { free: st.free.push(l), blocks: st.blocks, open: None },
        }
    } else {
        match st.open {
            Some(b) => ParseState { free: st.free, blocks: st.blocks, open: Some((b.0, b.1.push(l))) },
            None => ParseState { free: st.free.push(l), blocks: st.blocks, open: None },
        }
    }
}

pub open spec fn parse_from(st: ParseState, ls: Seq<Seq<char>>) -> ParseState
    decreases ls.len(),
{
    if ls.len() == 0 {
        st
    } else {
        parse_step(parse_from(st, ls.drop_last()), ls.last())
    }
}

/// The document that the lines `ls` hold; a block left open at the end is kept.
pub open spec fn parse_lines(ls: Seq<Seq<char>>) -> ParseState {
    close_open(parse_from(initial_state(), ls))
}

/// The document that the text `s` holds.
pub open spec fn parse_text(s: Seq<char>) -> ParseState {
    parse_lines(text_lines(s))
}

/// Whether a blank separator goes before the next block.
pub open spec fn needs_separator(acc: Seq<Seq<char>>) -> bool {
    acc.len() > 0 && acc.last().len() > 0
}

/// The lines of the document: the free lines, then each block, with a blank line before
/// a block wherever the line before it is not blank.
pub open spec fn render(free: Seq<Seq<char>>, bs: Seq<BlockModel>) -> Seq<Seq<char>>
    decreases bs.len(),
{
    if bs.len() == 0 {
        free
    } else {
        let acc = render(free, bs.drop_last());
        (if needs_separator(acc) {
            acc.push(Seq::empty())
        } else {
            acc
        }) + bs.last().1
    }
}

/// The contents of a hosts file, split into free lines and subscription blocks.
pub struct HostsFileStructure {
    pub other_content: Vec<String>,
    pub subscription_blocks: Vec<SubscriptionBlock>,
}

impl HostsFileStructure {
    pub open spec fn free_lines(&self) -> Seq<Seq<char>> {
        self.other_content.deep_view()
    }

    pub open spec fn blocks(&self) -> Seq<BlockModel> {
        self.subscription_blocks@.map_values(|b: SubscriptionBlock| b.model())
    }

    /// No two blocks share a URL.
    pub open spec fn wf(&self) -> bool {
        keys_unique(self.blocks())
    }

    pub open spec fn rendered(&self) -> Seq<Seq<char>> {
        render(self.free_lines(), self.blocks())
    }

    /// An empty document.
    pub fn new() -> (r: Self)
        ensures
            r.wf(),
            r.free_lines() == Seq::<Seq<char>>::empty(),
            r.blocks() == Seq::<BlockModel>::empty(),
    {
        let r = HostsFileStructure { other_content: Vec::new(), subscription_blocks: Vec::new() };
        assert(r.free_lines() =~= Seq::<Seq<char>>::empty());
        assert(r.blocks() =~= Seq::<BlockModel>::empty());
        r
    }

    /// Position of the block keyed by `url`.
    fn find_block(&self, url: &String) -> (r: Option<usize>)
        requires
            self.wf(),
        ensures
            r is Some ==> r->0 as int == index_of_key(self.blocks(), url@),
            r is None ==> index_of_key(self.blocks(), url@) < 0,
    {
        proof {
            lemma_index_of_key(self.blocks(), url@);
        }
        assert(self.blocks().len() == self.subscription_blocks@.len());
        let mut i: usize = 0;
        while i < self.subscription_blocks.len()
            invariant
                i <= self.subscription_blocks.len(),
                self.wf(),
                self.blocks().len() == self.subscription_blocks@.len(),
                forall|k: int| 0 <= k < i ==> (#[trigger] self.blocks()[k]).0 != url@,
            decreases self.subscription_blocks.len() - i,
        {
            if self.subscription_blocks[i].url == *url {
                assert(self.blocks()[i as int].0 == url@);
                proof {
                    lemma_index_of_key(self.blocks(), url@);
                }
                return Some(i);
            }
            i += 1;
        }
        None
    }

    /// Stores `lines` under `url`, replacing the block of that URL in place.
    fn put(&mut self, url: String, lines: Vec<String>)
        requires
            old(self).wf(),
        ensures
            final(self).wf(),
            final(self).free_lines() == old(self).free_lines(),
            final(self).blocks() == put_block(old(self).blocks(), url@, lines.deep_view()),
    {
        proof {
            lemma_put_block(self.blocks(), url@, lines.deep_view());
            lemma_index_of_key(self.blocks(), url@);
        }
        assert(self.blocks().len() == self.subscription_blocks@.len());
        match self.find_block(&url) {
            Some(i) => {
                let ghost before = self.blocks();
                self.subscription_blocks[i] = SubscriptionBlock { url, lines };
                proof {
                    assert(self.blocks() =~= before.update(i as int, (url@, lines.deep_view())));
                }
            },
            None => {
                let ghost before = self.blocks();
                self.subscription_blocks.push(SubscriptionBlock { url, lines });
                proof {
                    assert(self.blocks() =~= before.push((url@, lines.deep_view())));
                }
            },
        }
    }

    /// Reads a document from text. Never fails: an end marker with no open block,
    /// and any other foreign line, is kept as a free line.
    pub fn parse(content: &str) -> (r: Self)
        ensures
            r.wf(),
            r.free_lines() == parse_text(content@).free,
            r.blocks() == parse_text(content@).blocks,
    {
        let c = chars_of(content);
        let lines = split_lines(&c);
        let mut doc = Self::new();
        let mut open_url: Option<String> = None;
        let mut open_lines: Vec<String> = Vec::new();
        let mut i: usize = 0;
        while i < lines.len()
            invariant
                i <= lines.len(),
                lines.deep_view() == text_lines(content@),
                doc.wf(),
                state_model(&doc, &open_url, &open_lines) == parse_from(
                    initial_state(),
                    lines.deep_view().take(i as int),
                ),
            decreases lines.len() - i,
        {
            proof {
                assert(lines.deep_view().take(i as int + 1).drop_last() =~= lines.deep_view().take(
                    i as int,
                ));
            }
            let line = lines[i].clone();
            match extract_subscription_url_from_start_marker(line.as_str()) {
                Some(url) => {
                    let prev = open_url;
                    let ls = open_lines;
                    match prev {
                        Some(u) => {
                            doc.put(u, ls);
                        },
                        None => {},
                    }
                    open_url = Some(url);
                    open_lines = Vec::new();
                    open_lines.push(line);
                    proof {
                        assert(open_lines.deep_view() =~= seq![line@]);
                    }
                },
                None => {
                    if is_subscription_end_marker(line.as_str()) {
                        let prev = open_url;
                        open_url = None;
                        match prev {
                            Some(u) => {
                                let mut ls = open_lines;
                                let ghost before = ls.deep_view();
                                ls.push(line);
                                proof {
                                    assert(ls.deep_view() =~= before.push(line@));
                                }
                                doc.put(u, ls);
                                open_lines = Vec::new();
                            },
                            None => {
                                let ghost before = doc.free_lines();
                                doc.other_content.push(line);
                                proof {
                                    assert(doc.free_lines() =~= before.push(line@));
                                }
                            },
                        }
                    } else {
                        if open_url.is_some() {
                            let ghost before = open_lines.deep_view();
                            open_lines.push(line);
                            proof {
                                assert(open_lines.deep_view() =~= before.push(line@));
                            }
                        } else {
                            let ghost before = doc.free_lines();
                            doc.other_content.push(line);
                            proof {
                                assert(doc.free_lines() =~= before.push(line@));
                            }
                        }
                    }
                },
            }
            i += 1;
        }
        proof {
            assert(lines.deep_view().take(lines.len() as int) =~= lines.deep_view());
        }
        match open_url {
            Some(u) => {
                doc.put(u, open_lines);
            },
            None => {},
        }
        doc
    }

    /// Appends copies of `src` to `dst`.
    fn extend_lines(dst: &mut Vec<String>, src: &Vec<String>)
        ensures
            final(dst).deep_view() == old(dst).deep_view() + src.deep_view(),
    {
        let ghost base = dst.deep_view();
        let mut j: usize = 0;
        while j < src.len()
            invariant
                j <= src.len(),
                dst.deep_view() == base + src.deep_view().take(j as int),
            decreases src.len() - j,
        {
            let ghost before = dst.deep_view();
            dst.push(src[j].clone());
            proof {
                assert(dst.deep_view() =~= before.push(src.deep_view()[j as int]));
                assert(base + src.deep_view().take(j as int + 1) =~= (base + src.deep_view().take(
                    j as int,
                )).push(src.deep_view()[j as int]));
            }
            j += 1;
        }
        assert(src.deep_view().take(src.len() as int) =~= src.deep_view());
    }

    /// The document as text: the free lines, then each block, with a blank line
    /// before a block wherever the line before it is not blank, joined with `\n`.
    pub fn reconstruct(&self) -> (r: String)
        ensures
            r@ == join_lines(self.rendered()),
    {
        let mut content: Vec<String> = Vec::new();
        Self::extend_lines(&mut content, &self.other_content);
        assert(content.deep_view() =~= self.free_lines());
        let ghost bs = self.blocks();
        let mut i: usize = 0;
        while i < self.subscription_blocks.len()
            invariant
                i <= self.subscription_blocks.len(),
                bs == self.blocks(),
                bs.len() == self.subscription_blocks@.len(),
                content.deep_view() == render(self.free_lines(), bs.take(i as int)),
            decreases self.subscription_blocks.len() - i,
        {
            proof {
                assert(bs.take(i as int + 1).drop_last() =~= bs.take(i as int));
            }
            let n = content.len();
            if n > 0 && !content[n - 1].as_str().is_empty() {
                let ghost before = content.deep_view();
                content.push(String::new());
                proof {
                    assert(content.deep_view() =~= before.push(Seq::empty()));
                }
            }
            Self::extend_lines(&mut content, &self.subscription_blocks[i].lines);
            proof {
                assert(bs[i as int].1 == self.subscription_blocks@[i as int].lines.deep_view());
            }
            i += 1;
        }
        assert(bs.take(bs.len() as int) =~= bs);
        join_strings(&content)
    }

    /// Stores a fresh block for `url` built from `content` at time `now`: in place of
    /// the block of that URL if there is one, else after the others.
    pub fn add_or_update_subscription(&mut self, url: &str, content: &str, now: u64)
        requires
            old(self).wf(),
        ensures
            final(self).wf(),
            final(self).free_lines() == old(self).free_lines(),
            final(self).blocks() == put_block(
                old(self).blocks(),
                url@,
                block_lines(url@, content@, now as nat),
            ),
    {
        let lines = subscription_block_lines(url, content, now);
        self.put(String::from_str(url), lines);
    }

    /// Removes the block of `url`; says whether there was one.
    pub fn remove_subscription(&mut self, url: &str) -> (r: bool)
        requires
            old(self).wf(),
        ensures
            final(self).wf(),
            r == has_key(old(self).blocks(), url@),
            final(self).free_lines() == old(self).free_lines(),
            final(self).blocks() == drop_block(old(self).blocks(), url@),
    {
        proof {
            lemma_index_of_key(self.blocks(), url@);
            lemma_drop_block(self.blocks(), url@);
        }
        let u = String::from_str(url);
        assert(self.blocks().len() == self.subscription_blocks@.len());
        match self.find_block(&u) {
            Some(i) => {
                let ghost before = self.blocks();
                self.subscription_blocks.remove(i);
                proof {
                    assert(self.blocks() =~= before.remove(i as int));
                }
                true
            },
            None => false,
        }
    }

    /// The URLs of all blocks, in document order.
    pub fn get_all_subscriptions(&self) -> (r: Vec<String>)
        ensures
            r.deep_view() == self.blocks().map_values(|b: BlockModel| b.0),
    {
        let mut r: Vec<String> = Vec::new();
        let mut i: usize = 0;
        while i < self.subscription_blocks.len()
            invariant
                i <= self.subscription_blocks.len(),
                r.deep_view() == self.blocks().map_values(|b: BlockModel| b.0).take(i as int),
            decreases self.subscription_blocks.len() - i,
        {
            let ghost before = r.deep_view();
            r.push(self.subscription_blocks[i].url.clone());
            proof {
                assert(r.deep_view() =~= before.push(self.subscription_blocks@[i as int].url@));
                assert(self.blocks()[i as int].0 == self.subscription_blocks@[i as int].url@);
                assert(r.deep_view() =~= self.blocks().map_values(|b: BlockModel| b.0).take(
                    i as int + 1,
                ));
            }
            i += 1;
        }
        assert(r.deep_view() =~= self.blocks().map_values(|b: BlockModel| b.0));
        r
    }

    /// The lines of the block of `url`, if there is one.
    pub fn subscription_block(&self, url: &str) -> (r: Option<Vec<String>>)
        requires
            self.wf(),
        ensures
            has_key(self.blocks(), url@) ==> r is Some && r->0.deep_view() == self.blocks()[index_of_key(
                self.blocks(),
                url@,
            )].1,
            !has_key(self.blocks(), url@) ==> r is None,
    {
        proof {
            lemma_index_of_key(self.blocks(), url@);
        }
        let u = String::from_str(url);
        match self.find_block(&u) {
            Some(i) => {
                let ls = self.subscription_blocks[i].lines.clone();
                Some(ls)
            },
            None => None,
        }
    }

    /// The free lines, in order.
    pub fn other_content(&self) -> (r: Vec<String>)
        ensures
            r.deep_view() == self.free_lines(),
    {
        self.other_content.clone()
    }
}

/// The parse state that the document under construction, with an open block, stands for.
pub open spec fn state_model(
    doc: &HostsFileStructure,
    open_url: &Option<String>,
    open_lines: &Vec<String>,
) -> ParseState {
    ParseState {
        free: doc.free_lines(),
        blocks: doc.blocks(),
        open: match open_url {
            Some(u) => Some((u@, open_lines.deep_view())),
            None => None,
        },
    }
}

pub proof fn lemma_drop_block(bs: Seq<BlockModel>, url: Seq<char>)
    requires
        keys_unique(bs),
    ensures
        keys_unique(drop_block(bs, url)),
        !has_key(drop_block(bs, url), url),
{
    lemma_index_of_key(bs, url);
    let i = index_of_key(bs, url);
    let r = drop_block(bs, url);
    if i >= 0 {
        assert forall|a: int, b: int|
            0 <= a < r.len() && 0 <= b < r.len() && a != b implies (#[trigger] r[a]).0 != (
            #[trigger] r[b]).0 by {
            let a2 = if a < i {
                a
            } else {
                a + 1
            };
            let b2 = if b < i {
                b
            } else {
                b + 1
            };
            assert(r[a] == bs[a2] && r[b] == bs[b2]);
        }
        if has_key(r, url) {
            let k = choose|k: int| 0 <= k < r.len() && (#[trigger] r[k]).0 == url;
            let k2 = if k < i {
                k
            } else {
                k + 1
            };
            assert(r[k] == bs[k2]);
        }
    }
}

/// A file format made of a parser and its inverse.
pub trait FileStructure: Sized {
    fn parse(content: &str) -> Self;

    fn reconstruct(&self) -> String;
}

impl FileStructure for HostsFileStructure {
    fn parse(content: &str) -> Self {
        HostsFileStructure::parse(content)
    }

    fn reconstruct(&self) -> String {
        HostsFileStructure::reconstruct(self)
    }
}

} // verus!
