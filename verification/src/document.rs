//! Documents and their chunking into word-bounded nodes.
//!
//! A document's text is split into words at whitespace runs; a chunk of
//! size `n` is the single-space join of `n` consecutive words (the last
//! chunk may be shorter).  Chunk nodes carry their position (rendered in
//! decimal) as their id, unique within their document only.

use vstd::prelude::*;

use crate::text::{dec_of, usize_to_string};

verus! {

/// The whitespace characters the chunker splits at: the Unicode
/// White_Space set.
pub open spec fn is_space(c: char) -> bool {
    c == '\u{9}' || c == '\u{A}' || c == '\u{B}' || c == '\u{C}' || c == '\u{D}' || c == ' '
        || c == '\u{85}' || c == '\u{A0}' || c == '\u{1680}' || c == '\u{2000}' || c
        == '\u{2001}' || c == '\u{2002}' || c == '\u{2003}' || c == '\u{2004}' || c == '\u{2005}'
        || c == '\u{2006}' || c == '\u{2007}' || c == '\u{2008}' || c == '\u{2009}' || c
        == '\u{200A}' || c == '\u{2028}' || c == '\u{2029}' || c == '\u{202F}' || c == '\u{205F}'
        || c == '\u{3000}'
}

/// The position right after the word starting at `i`: the first
/// position at or after `i` holding whitespace, or the end of the text.
pub open spec fn word_end(s: Seq<char>, i: int) -> int
    decreases s.len() - i
    when 0 <= i <= s.len()
{
    if i < s.len() && !is_space(s[i]) {
        word_end(s, i + 1)
    } else {
        i
    }
}

pub proof fn lemma_word_end_bounds(s: Seq<char>, i: int)
    requires
        0 <= i <= s.len(),
    ensures
        i <= word_end(s, i) <= s.len(),
    decreases s.len() - i,
{
    if i < s.len() && !is_space(s[i]) {
        lemma_word_end_bounds(s, i + 1);
    }
}

/// The words of `s` from position `i` on: maximal runs of non-space
/// characters, in text order.
pub open spec fn words_from(s: Seq<char>, i: int) -> Seq<Seq<char>>
    decreases s.len() - i
    when 0 <= i <= s.len()
    via words_from_decreases
{
    if i >= s.len() {
        Seq::empty()
    } else if is_space(s[i]) {
        words_from(s, i + 1)
    } else {
        seq![s.subrange(i, word_end(s, i))] + words_from(s, word_end(s, i))
    }
}

#[via_fn]
proof fn words_from_decreases(s: Seq<char>, i: int) {
    if 0 <= i <= s.len() && i < s.len() && !is_space(s[i]) {
        lemma_word_end_bounds(s, i + 1);
    }
}

/// The words of a text.
pub open spec fn words(s: Seq<char>) -> Seq<Seq<char>> {
    words_from(s, 0)
}

/// Words joined with single spaces.
pub open spec fn join_words(ws: Seq<Seq<char>>) -> Seq<char>
    decreases ws.len(),
{
    if ws.len() == 0 {
        Seq::empty()
    } else if ws.len() == 1 {
        ws[0]
    } else {
        ws[0] + seq![' '] + join_words(ws.drop_first())
    }
}

pub proof fn lemma_join_words_push(ws: Seq<Seq<char>>, w: Seq<char>)
    ensures
        ws.len() == 0 ==> join_words(ws.push(w)) == w,
        ws.len() > 0 ==> join_words(ws.push(w)) == join_words(ws) + seq![' '] + w,
    decreases ws.len(),
{
    if ws.len() == 0 {
        assert(ws.push(w)[0] == w);
    } else if ws.len() == 1 {
        assert(ws.push(w).drop_first() =~= seq![w]);
        assert(ws.push(w)[0] == ws[0]);
        assert(join_words(seq![w]) == w);
    } else {
        assert(ws.push(w).drop_first() =~= ws.drop_first().push(w));
        lemma_join_words_push(ws.drop_first(), w);
        assert(join_words(ws.push(w)) == ws[0] + seq![' '] + (join_words(ws.drop_first())
            + seq![' '] + w));
        assert(ws[0] + seq![' '] + (join_words(ws.drop_first()) + seq![' '] + w) =~= (ws[0]
            + seq![' '] + join_words(ws.drop_first())) + seq![' '] + w);
    }
}

/// Joining a split word sequence equals joining the halves with one
/// space between them.
pub proof fn lemma_join_split(a: Seq<Seq<char>>, b: Seq<Seq<char>>)
    requires
        a.len() >= 1,
        b.len() >= 1,
    ensures
        join_words(a + b) == join_words(a) + seq![' '] + join_words(b),
    decreases a.len(),
{
    if a.len() == 1 {
        assert((a + b).drop_first() =~= b);
        assert((a + b)[0] == a[0]);
        assert((a + b).len() >= 2);
        assert(join_words(a + b) == a[0] + seq![' '] + join_words(b));
    } else {
        assert((a + b).drop_first() =~= a.drop_first() + b);
        lemma_join_split(a.drop_first(), b);
        assert(join_words(a + b) == a[0] + seq![' '] + (join_words(a.drop_first()) + seq![' ']
            + join_words(b)));
        assert(a[0] + seq![' '] + (join_words(a.drop_first()) + seq![' '] + join_words(b)) =~= (
        a[0] + seq![' '] + join_words(a.drop_first())) + seq![' '] + join_words(b));
    }
}

/// How many chunks of size `n` a sequence of `wc` words yields: the
/// ceiling of `wc / n`.
pub open spec fn num_chunks(wc: int, n: int) -> int {
    (wc + n - 1) / n
}

/// The words belonging to chunk `k`.
pub open spec fn chunk_word_group(ws: Seq<Seq<char>>, n: int, k: int) -> Seq<Seq<char>> {
    ws.subrange(k * n, if (k + 1) * n <= ws.len() {
        (k + 1) * n
    } else {
        ws.len() as int
    })
}

/// The text of chunk `k`: its words joined with single spaces.
pub open spec fn chunk_text(ws: Seq<Seq<char>>, n: int, k: int) -> Seq<char> {
    join_words(chunk_word_group(ws, n, k))
}

/// The chunk texts of a word sequence, in order.
pub open spec fn chunk_texts(ws: Seq<Seq<char>>, n: int) -> Seq<Seq<char>> {
    Seq::new(num_chunks(ws.len() as int, n) as nat, |k: int| chunk_text(ws, n, k))
}

/// The view of a chunk node.
#[verifier::ext_equal]
pub struct NodeView {
    pub text: Seq<char>,
    pub id: Seq<char>,
}

/// One chunk of a document: a run of words joined with single spaces,
/// with the chunk position (in decimal) as its id.
#[derive(Debug)]
pub struct DocumentNode {
    pub text: String,
    pub id: String,
}

impl View for DocumentNode {
    type V = NodeView;

    open spec fn view(&self) -> NodeView {
        NodeView { text: self.text@, id: self.id@ }
    }
}

/// The view of a document.
#[verifier::ext_equal]
pub struct DocView {
    pub text: Seq<char>,
    pub id: Seq<char>,
    pub nodes: Option<Seq<NodeView>>,
}

/// A text document, optionally chunked into nodes.
#[derive(Debug)]
pub struct Document {
    pub text: String,
    pub id: String,
    pub nodes: Option<Vec<DocumentNode>>,
}

impl View for Document {
    type V = DocView;

    open spec fn view(&self) -> DocView {
        DocView {
            text: self.text@,
            id: self.id@,
            nodes: match self.nodes {
                Some(ns) => Some(ns@.map_values(|n: DocumentNode| n@)),
                None => None,
            },
        }
    }
}

/// The nodes of a document after chunking its text to size `n`.
pub open spec fn chunk_nodes(text: Seq<char>, n: int) -> Seq<NodeView> {
    Seq::new(
        num_chunks(words(text).len() as int, n) as nat,
        |k: int| NodeView { text: chunk_text(words(text), n, k), id: dec_of(k as nat) },
    )
}

fn is_space_char(c: char) -> (r: bool)
    ensures
        r == is_space(c),
{
    c == '\u{9}' || c == '\u{A}' || c == '\u{B}' || c == '\u{C}' || c == '\u{D}' || c == ' '
        || c == '\u{85}' || c == '\u{A0}' || c == '\u{1680}' || c == '\u{2000}' || c
        == '\u{2001}' || c == '\u{2002}' || c == '\u{2003}' || c == '\u{2004}' || c == '\u{2005}'
        || c == '\u{2006}' || c == '\u{2007}' || c == '\u{2008}' || c == '\u{2009}' || c
        == '\u{200A}' || c == '\u{2028}' || c == '\u{2029}' || c == '\u{202F}' || c == '\u{205F}'
        || c == '\u{3000}'
}

fn word_continues(text: &str, j: usize, n: usize) -> (r: bool)
    requires
        n == text@.len(),
        j <= n,
    ensures
        r == (j < n && !is_space(text@[j as int])),
{
    if j < n {
        !is_space_char(text.get_char(j))
    } else {
        false
    }
}

/// Splits a text into its words, in order.
pub fn split_words(text: &str) -> (r: Vec<String>)
    ensures
        r@.map_values(|w: String| w@) == words(text@),
{
    let n = text.unicode_len();
    let mut ws: Vec<String> = Vec::new();
    let mut i: usize = 0;
    proof {
        assert(ws@.map_values(|w: String| w@) =~= Seq::<Seq<char>>::empty());
        assert(Seq::<Seq<char>>::empty() + words_from(text@, 0) =~= words_from(text@, 0));
    }
    while i < n
        invariant
            0 <= i <= n,
            n == text@.len(),
            words(text@) == ws@.map_values(|w: String| w@) + words_from(text@, i as int),
        decreases n - i,
    {
        let c = text.get_char(i);
        if is_space_char(c) {
            i = i + 1;
        } else {
            proof {
                lemma_word_end_bounds(text@, i as int);
            }
            let start = i;
            let mut j = i;
            while word_continues(text, j, n)
                invariant
                    start <= j <= n,
                    n == text@.len(),
                    0 <= start < n,
                    word_end(text@, j as int) == word_end(text@, start as int),
                decreases n - j,
            {
                j = j + 1;
            }
            proof {
                assert(word_end(text@, j as int) == j);
            }
            let w = text.substring_char(start, j);
            let ghost old_map = ws@.map_values(|x: String| x@);
            ws.push(String::from_str(w));
            proof {
                assert(ws@.map_values(|x: String| x@) =~= old_map.push(w@));
                assert(words_from(text@, start as int) == seq![
                    text@.subrange(start as int, j as int)] + words_from(text@, j as int));
                assert(old_map + (seq![w@] + words_from(text@, j as int)) =~= old_map.push(w@)
                    + words_from(text@, j as int));
            }
            i = j;
        }
    }
    proof {
        assert(words_from(text@, n as int) =~= Seq::<Seq<char>>::empty());
        assert(ws@.map_values(|w: String| w@) + Seq::<Seq<char>>::empty() =~= ws@.map_values(
            |w: String| w@));
    }
    ws
}

impl Document {
    /// Creates an unchunked document from raw text.
    pub fn new(text: String, id: String, _chunk_size: usize) -> (r: Self)
        ensures
            r@.text == text@,
            r@.id == id@,
            r@.nodes is None,
    {
        Self { text, id, nodes: None }
    }

    /// Replaces this document's nodes with the chunks of its text at
    /// word-count `size`: chunking is idempotent and never appends.
    pub fn chunk(&mut self, size: usize)
        requires
            size >= 1,
        ensures
            final(self)@.text == old(self)@.text,
            final(self)@.id == old(self)@.id,
            final(self)@.nodes == Some(chunk_nodes(old(self)@.text, size as int)),
    {
        let ws = split_words(self.text.as_str());
        let ghost wsv = ws@.map_values(|w: String| w@);
        let ghost target = chunk_nodes(self@.text, size as int);
        let mut nodes: Vec<DocumentNode> = Vec::new();
        let mut i: usize = 0;
        let mut k: usize = 0;
        while i < ws.len()
            invariant
                wsv == ws@.map_values(|w: String| w@),
                wsv == words(self@.text),
                target == chunk_nodes(self@.text, size as int),
                size >= 1,
                0 <= i <= ws@.len(),
                nodes@.len() == k,
                i == if k * (size as int) <= wsv.len() {
                    k * (size as int)
                } else {
                    wsv.len() as int
                },
                k == 0 || (k - 1) * (size as int) < wsv.len(),
                forall|m: int|
                    0 <= m < k ==> (#[trigger] nodes@[m])@ == (NodeView {
                        text: chunk_text(wsv, size as int, m),
                        id: dec_of(m as nat),
                    }),
            decreases ws@.len() - i,
        {
            let end = if ws.len() - i > size {
                i + size
            } else {
                ws.len()
            };
            proof {
                assert((k + 1) * (size as int) == k * (size as int) + size) by (nonlinear_arith);
            }
            let mut t = String::new();
            let mut j = i;
            while j < end
                invariant
                    wsv == ws@.map_values(|w: String| w@),
                    0 <= i <= j <= end <= ws@.len(),
                    t@ == join_words(wsv.subrange(i as int, j as int)),
                decreases end - j,
            {
                if j > i {
                    t.append(" ");
                    proof {
                        reveal_strlit(" ");
                    }
                }
                let ghost before = wsv.subrange(i as int, j as int);
                t.append(ws[j].as_str());
                proof {
                    assert(wsv[j as int] == ws@[j as int]@);
                    assert(wsv.subrange(i as int, j + 1) =~= before.push(wsv[j as int]));
                    lemma_join_words_push(before, wsv[j as int]);
                    if j > i {
                        assert(t@ == join_words(before) + seq![' '] + wsv[j as int]);
                    } else {
                        assert(before.len() == 0);
                        assert(t@ == Seq::<char>::empty() + wsv[j as int]);
                        assert(Seq::<char>::empty() + wsv[j as int] =~= wsv[j as int]);
                    }
                }
                j = j + 1;
            }
            let id = usize_to_string(k);
            let ghost old_nodes = nodes@.map_values(|x: DocumentNode| x@);
            nodes.push(DocumentNode { text: t, id });
            proof {
                assert(nodes@.map_values(|x: DocumentNode| x@) =~= old_nodes.push(
                    NodeView { text: t@, id: dec_of(k as nat) }));
                assert(chunk_word_group(wsv, size as int, k as int) =~= wsv.subrange(
                    i as int, end as int));
            }
            proof {
                assert(k * (size as int) < wsv.len());
                assert(k as int <= k * (size as int)) by (nonlinear_arith)
                    requires
                        size >= 1,
                        k >= 0,
                ;
            }
            i = end;
            k = k + 1;
        }
        proof {
            if k > 0 {
                assert(k * (size as int) >= wsv.len());
                assert(k == num_chunks(wsv.len() as int, size as int)) by (nonlinear_arith)
                    requires
                        size >= 1,
                        k >= 1,
                        (k - 1) * (size as int) < wsv.len(),
                        k * (size as int) >= wsv.len(),
                        num_chunks(wsv.len() as int, size as int) == (wsv.len() + size - 1) / (
                        size as int),
                ;
            } else {
                assert(wsv.len() == 0);
                assert(num_chunks(0, size as int) == 0) by (nonlinear_arith)
                    requires
                        size >= 1,
                        num_chunks(0, size as int) == (0 + size - 1) / (size as int),
                ;
            }
            assert(nodes@.map_values(|x: DocumentNode| x@) =~= target);
        }
        self.nodes = Some(nodes);
    }
}

/// Joins words back into one text with single spaces between them.
pub fn join_all_words(ws: &Vec<String>) -> (r: String)
    ensures
        r@ == join_words(ws@.map_values(|w: String| w@)),
{
    let ghost wsv = ws@.map_values(|w: String| w@);
    let mut t = String::new();
    let mut j: usize = 0;
    proof {
        assert(wsv.subrange(0, 0) =~= Seq::<Seq<char>>::empty());
    }
    while j < ws.len()
        invariant
            wsv == ws@.map_values(|w: String| w@),
            0 <= j <= ws@.len(),
            t@ == join_words(wsv.subrange(0, j as int)),
        decreases ws@.len() - j,
    {
        if j > 0 {
            t.append(" ");
            proof {
                reveal_strlit(" ");
            }
        }
        let ghost before = wsv.subrange(0, j as int);
        t.append(ws[j].as_str());
        proof {
            assert(wsv[j as int] == ws@[j as int]@);
            assert(wsv.subrange(0, j + 1) =~= before.push(wsv[j as int]));
            lemma_join_words_push(before, wsv[j as int]);
            if j > 0 {
                assert(t@ == join_words(before) + seq![' '] + wsv[j as int]);
            } else {
                assert(before.len() == 0);
                assert(t@ == Seq::<char>::empty() + wsv[j as int]);
                assert(Seq::<char>::empty() + wsv[j as int] =~= wsv[j as int]);
            }
        }
        j = j + 1;
    }
    proof {
        assert(wsv.subrange(0, ws@.len() as int) =~= wsv);
    }
    t
}

/// The nodes a build embeds for a document: its chunk nodes, or one
/// implicit node holding the whole text (with id `"0"`) if chunking
/// never ran.
pub open spec fn spec_embeddable_nodes(d: DocView) -> Seq<NodeView> {
    match d.nodes {
        Some(ns) => ns,
        None => seq![NodeView { text: d.text, id: "0"@ }],
    }
}

impl Document {
    /// Returns the nodes a build embeds for this document.
    pub fn embeddable_nodes(&self) -> (r: Vec<DocumentNode>)
        ensures
            r@.map_values(|n: DocumentNode| n@) == spec_embeddable_nodes(self@),
    {
        match &self.nodes {
            Some(ns) => {
                let mut out: Vec<DocumentNode> = Vec::new();
                let mut i: usize = 0;
                while i < ns.len()
                    invariant
                        0 <= i <= ns@.len(),
                        out@.map_values(|n: DocumentNode| n@) == ns@.map_values(
                            |n: DocumentNode| n@).take(i as int),
                    decreases ns@.len() - i,
                {
                    let ghost old_map = out@.map_values(|n: DocumentNode| n@);
                    out.push(DocumentNode { text: ns[i].text.clone(), id: ns[i].id.clone() });
                    proof {
                        assert(out@.map_values(|n: DocumentNode| n@) =~= old_map.push(
                            ns@[i as int]@));
                        assert(ns@.map_values(|n: DocumentNode| n@).take(i + 1) =~= ns@
                            .map_values(|n: DocumentNode| n@).take(i as int).push(
                            ns@[i as int]@));
                    }
                    i = i + 1;
                }
                proof {
                    assert(ns@.map_values(|n: DocumentNode| n@).take(ns@.len() as int) =~= ns@
                        .map_values(|n: DocumentNode| n@));
                }
                out
            },
            None => {
                let mut out: Vec<DocumentNode> = Vec::new();
                out.push(DocumentNode { text: self.text.clone(), id: String::from_str("0") });
                proof {
                    assert(out@.map_values(|n: DocumentNode| n@) =~= seq![
                        NodeView { text: self@.text, id: "0"@ }]);
                }
                out
            },
        }
    }
}

/// Concatenating the chunk texts with single spaces reproduces the
/// joined word sequence, and the chunk count is the ceiling of the word
/// count over the chunk size.
pub proof fn lemma_chunks_rejoin(ws: Seq<Seq<char>>, n: int)
    requires
        n >= 1,
    ensures
        join_words(chunk_texts(ws, n)) == join_words(ws),
        chunk_texts(ws, n).len() == num_chunks(ws.len() as int, n),
    decreases ws.len(),
{
    let wc = ws.len() as int;
    if ws.len() == 0 {
        assert(num_chunks(0, n) == 0) by (nonlinear_arith)
            requires
                n >= 1,
                num_chunks(0, n) == (0 + n - 1) / n,
        ;
        assert(chunk_texts(ws, n) =~= Seq::<Seq<char>>::empty());
    } else if wc <= n {
        assert(num_chunks(wc, n) == 1) by (nonlinear_arith)
            requires
                n >= 1,
                1 <= wc <= n,
                num_chunks(wc, n) == (wc + n - 1) / n,
        ;
        assert(chunk_word_group(ws, n, 0) =~= ws);
        assert(chunk_texts(ws, n) =~= seq![join_words(ws)]);
        assert(join_words(seq![join_words(ws)]) == join_words(ws));
    } else {
        let head = ws.subrange(0, n);
        let rest = ws.skip(n);
        lemma_chunks_rejoin(rest, n);
        let nc = num_chunks(wc, n);
        assert(nc == 1 + num_chunks(wc - n, n)) by (nonlinear_arith)
            requires
                n >= 1,
                wc > n,
                nc == (wc + n - 1) / n,
                num_chunks(wc - n, n) == (wc - n + n - 1) / n,
        ;
        assert(num_chunks(wc - n, n) >= 1) by (nonlinear_arith)
            requires
                n >= 1,
                wc - n >= 1,
                num_chunks(wc - n, n) == (wc - n + n - 1) / n,
        ;
        assert((nc - 1) * n < wc <= nc * n) by (nonlinear_arith)
            requires
                n >= 1,
                wc >= 1,
                nc == (wc + n - 1) / n,
        ;
        assert forall|m: int| 1 <= m < nc implies chunk_text(ws, n, m) == chunk_text(
            rest,
            n,
            m - 1,
        ) by {
            assert(m * n == (m - 1) * n + n) by (nonlinear_arith);
            assert((m + 1) * n == m * n + n) by (nonlinear_arith);
            assert(m * n <= (nc - 1) * n) by (nonlinear_arith)
                requires
                    m <= nc - 1,
                    n >= 1,
            ;
            assert(chunk_word_group(ws, n, m) =~= chunk_word_group(rest, n, m - 1));
        }
        assert(chunk_word_group(ws, n, 0) =~= head);
        assert(chunk_texts(ws, n) =~= seq![join_words(head)] + chunk_texts(rest, n));
        lemma_join_split(seq![join_words(head)], chunk_texts(rest, n));
        assert(join_words(seq![join_words(head)]) == join_words(head));
        assert(join_words(chunk_texts(ws, n)) == join_words(head) + seq![' '] + join_words(
            chunk_texts(rest, n)));
        assert(ws =~= head + rest);
        lemma_join_split(head, rest);
        assert(join_words(ws) == join_words(head) + seq![' '] + join_words(rest));
    }
}

/// Chunking covers the text: the chunk node texts, joined with single
/// spaces, reproduce the whitespace-normalized word sequence of the
/// text, and there are exactly `ceil(word_count / n)` chunks.
pub proof fn lemma_chunking_covers_text(text: Seq<char>, n: int)
    requires
        n >= 1,
    ensures
        join_words(chunk_nodes(text, n).map_values(|nv: NodeView| nv.text)) == join_words(
            words(text)),
        chunk_nodes(text, n).len() == num_chunks(words(text).len() as int, n),
{
    assert(chunk_nodes(text, n).map_values(|nv: NodeView| nv.text) =~= chunk_texts(
        words(text), n));
    lemma_chunks_rejoin(words(text), n);
}

} // verus!
