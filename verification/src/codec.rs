//! The persisted index format: a line-oriented UTF-8 text rendering of
//! the whole index, and its parser.
//!
//! The top level carries the named sections `documents`, `embeddings`
//! and `config`; each document record names its `text`, `id` and
//! `nodes`, each embedding record its `data`, `document_id`,
//! `document_node_id` and `tokens_used`, and the configuration its
//! `document_chunk_size` and `verbose`.  Numbers are decimal with one
//! trailing space; strings are length-prefixed (`<chars>:<text>`), so
//! any text, including newlines, survives unchanged; every record
//! stands on its own line.  The parser accepts exactly what the printer
//! emits: loading anything else is a schema error.

use vstd::prelude::*;

use crate::document::{DocView, Document, DocumentNode, NodeView};
use crate::embedding::{Embedding, EmbeddingView};
use crate::errors::IndexError;
use crate::index::{IndexConfig, IndexView, VectorIndex};
use crate::similarity::ints;
use crate::text::{dec_of, digit_char, str_eq, u64_to_string};

verus! {

pub open spec fn is_digit(c: char) -> bool {
    c == '0' || c == '1' || c == '2' || c == '3' || c == '4' || c == '5' || c == '6' || c
        == '7' || c == '8' || c == '9'
}

pub open spec fn digit_val(c: char) -> nat {
    if c == '0' {
        0
    } else if c == '1' {
        1
    } else if c == '2' {
        2
    } else if c == '3' {
        3
    } else if c == '4' {
        4
    } else if c == '5' {
        5
    } else if c == '6' {
        6
    } else if c == '7' {
        7
    } else if c == '8' {
        8
    } else {
        9
    }
}

/// The first position at or after `i` holding a non-digit, or the end.
pub open spec fn num_end(s: Seq<char>, i: int) -> int
    decreases s.len() - i
    when 0 <= i <= s.len()
{
    if i < s.len() && is_digit(s[i]) {
        num_end(s, i + 1)
    } else {
        i
    }
}

pub proof fn lemma_num_end_bounds(s: Seq<char>, i: int)
    requires
        0 <= i <= s.len(),
    ensures
        i <= num_end(s, i) <= s.len(),
    decreases s.len() - i,
{
    if i < s.len() && is_digit(s[i]) {
        lemma_num_end_bounds(s, i + 1);
    }
}

/// The value of the digit run `s[i..j]`.
pub open spec fn val_from(s: Seq<char>, i: int, j: int) -> nat
    decreases j - i
    when i <= j
{
    if j <= i {
        0
    } else {
        val_from(s, i, j - 1) * 10 + digit_val(s[j - 1])
    }
}

/// A parsed number: its value and the position after its trailing
/// space.  Fails without a digit run, a trailing space, or on a value
/// beyond `u64`.
pub open spec fn parse_num(s: Seq<char>, i: int) -> Option<(nat, int)> {
    if 0 <= i && i < s.len() && is_digit(s[i]) {
        let j = num_end(s, i);
        let v = val_from(s, i, j);
        if v <= u64::MAX && j < s.len() && s[j] == ' ' {
            Some((v, j + 1))
        } else {
            None
        }
    } else {
        None
    }
}

/// A number token: decimal digits and one trailing space.
pub open spec fn print_num(n: nat) -> Seq<char> {
    dec_of(n) + seq![' ']
}

/// A parsed signed number, same shape with an optional leading minus.
pub open spec fn parse_int(s: Seq<char>, i: int) -> Option<(int, int)> {
    if 0 <= i && i < s.len() && s[i] == '-' {
        match parse_num(s, i + 1) {
            Some((v, j)) => if v <= 0x8000_0000_0000_0000 {
                Some((-(v as int), j))
            } else {
                None
            },
            None => None,
        }
    } else {
        match parse_num(s, i) {
            Some((v, j)) => if v <= i64::MAX {
                Some((v as int, j))
            } else {
                None
            },
            None => None,
        }
    }
}

pub open spec fn print_int(x: int) -> Seq<char> {
    if x < 0 {
        seq!['-'] + print_num((-x) as nat)
    } else {
        print_num(x as nat)
    }
}

/// A parsed length-prefixed string: `<len>:<exactly len chars>`.
pub open spec fn parse_str(s: Seq<char>, i: int) -> Option<(Seq<char>, int)> {
    if 0 <= i && i < s.len() && is_digit(s[i]) {
        let j = num_end(s, i);
        let v = val_from(s, i, j);
        if v <= usize::MAX && j < s.len() && s[j] == ':' && j + 1 + v <= s.len() {
            Some((s.subrange(j + 1, j + 1 + v), j + 1 + v))
        } else {
            None
        }
    } else {
        None
    }
}

pub open spec fn print_str(v: Seq<char>) -> Seq<char> {
    dec_of(v.len()) + seq![':'] + v
}

/// A fixed literal: the position after it, if it is there.
pub open spec fn parse_lit(s: Seq<char>, i: int, l: Seq<char>) -> Option<int> {
    if 0 <= i && i + l.len() <= s.len() && s.subrange(i, i + l.len()) == l {
        Some(i + l.len())
    } else {
        None
    }
}

pub proof fn lemma_dec_digits(n: nat)
    ensures
        dec_of(n).len() >= 1,
        forall|m: int| 0 <= m < dec_of(n).len() ==> is_digit(#[trigger] dec_of(n)[m]),
    decreases n,
{
    if n >= 10 {
        lemma_dec_digits(n / 10);
        assert forall|m: int| 0 <= m < dec_of(n).len() implies is_digit(
            #[trigger] dec_of(n)[m],
        ) by {
            if m < dec_of(n / 10).len() {
                assert(dec_of(n)[m] == dec_of(n / 10)[m]);
            } else {
                assert(dec_of(n)[m] == digit_char(n % 10));
            }
        }
    }
}

proof fn lemma_num_end_at(s: Seq<char>, i: int, j: int)
    requires
        0 <= i <= j <= s.len(),
        forall|m: int| i <= m < j ==> is_digit(#[trigger] s[m]),
        j == s.len() || !is_digit(s[j]),
    ensures
        num_end(s, i) == j,
    decreases j - i,
{
    if i < j {
        lemma_num_end_at(s, i + 1, j);
    }
}

proof fn lemma_val_of_dec(s: Seq<char>, i: int, n: nat)
    requires
        0 <= i,
        i + dec_of(n).len() <= s.len(),
        s.subrange(i, i + dec_of(n).len()) == dec_of(n),
    ensures
        val_from(s, i, i + dec_of(n).len()) == n,
    decreases n,
{
    let l = dec_of(n).len() as int;
    if n < 10 {
        assert(s[i] == dec_of(n)[0]);
        assert(digit_val(digit_char(n)) == n);
        assert(val_from(s, i, i + 1) == val_from(s, i, i) * 10 + digit_val(s[i]));
    } else {
        let lh = dec_of(n / 10).len() as int;
        assert(dec_of(n) == dec_of(n / 10) + seq![digit_char(n % 10)]);
        assert(s.subrange(i, i + lh) =~= dec_of(n / 10)) by {
            assert forall|m: int| 0 <= m < lh implies #[trigger] s.subrange(i, i + lh)[m]
                == dec_of(n / 10)[m] by {
                assert(s.subrange(i, i + l)[m] == dec_of(n)[m]);
                assert(dec_of(n)[m] == dec_of(n / 10)[m]);
            }
        }
        lemma_val_of_dec(s, i, n / 10);
        assert(s[i + l - 1] == dec_of(n)[l - 1]);
        assert(dec_of(n)[l - 1] == digit_char(n % 10));
        assert(digit_val(digit_char(n % 10)) == n % 10);
        assert(val_from(s, i, i + l) == val_from(s, i, i + l - 1) * 10 + digit_val(
            s[i + l - 1]));
    }
}

/// A printed number parses back, in place.
pub proof fn lemma_parse_num_rt(s: Seq<char>, i: int, n: nat)
    requires
        n <= u64::MAX,
        0 <= i,
        i + print_num(n).len() <= s.len(),
        s.subrange(i, i + print_num(n).len()) == print_num(n),
    ensures
        parse_num(s, i) == Some((n, i + print_num(n).len())),
{
    let l = dec_of(n).len() as int;
    lemma_dec_digits(n);
    assert forall|m: int| i <= m < i + l implies is_digit(#[trigger] s[m]) by {
        assert(s[m] == s.subrange(i, i + l + 1)[m - i]);
        assert(print_num(n)[m - i] == dec_of(n)[m - i]);
    }
    assert(s[i + l] == s.subrange(i, i + l + 1)[l]);
    assert(print_num(n)[l] == ' ');
    assert(!is_digit(s[i + l]));
    lemma_num_end_at(s, i, i + l);
    assert(s.subrange(i, i + l) =~= dec_of(n)) by {
        assert forall|m: int| 0 <= m < l implies s.subrange(i, i + l)[m] == dec_of(n)[m] by {
            assert(s.subrange(i, i + l)[m] == s[i + m]);
            assert(s[i + m] == s.subrange(i, i + l + 1)[m]);
            assert(print_num(n)[m] == dec_of(n)[m]);
        }
    }
    lemma_val_of_dec(s, i, n);
    assert(s[i] == dec_of(n)[0]);
    assert(is_digit(s[i]));
}

/// A printed signed number parses back, in place.
pub proof fn lemma_parse_int_rt(s: Seq<char>, i: int, x: int)
    requires
        i64::MIN <= x <= i64::MAX,
        0 <= i,
        i + print_int(x).len() <= s.len(),
        s.subrange(i, i + print_int(x).len()) == print_int(x),
    ensures
        parse_int(s, i) == Some((x, i + print_int(x).len())),
{
    if x < 0 {
        let m = (-x) as nat;
        assert(s[i] == print_int(x)[0]);
        assert(print_int(x)[0] == '-');
        assert(s.subrange(i + 1, i + 1 + print_num(m).len() as int) =~= print_num(m)) by {
            assert forall|w: int| 0 <= w < print_num(m).len() implies s.subrange(
                i + 1,
                i + 1 + print_num(m).len() as int,
            )[w] == print_num(m)[w] by {
                assert(s[i + 1 + w] == s.subrange(i, i + print_int(x).len() as int)[1 + w]);
                assert(print_int(x)[1 + w] == print_num(m)[w]);
            }
        }
        lemma_parse_num_rt(s, i + 1, m);
        assert(m <= 0x8000_0000_0000_0000);
    } else {
        lemma_parse_num_rt(s, i, x as nat);
        lemma_dec_digits(x as nat);
        assert(s[i] == print_int(x)[0]);
        assert(print_int(x)[0] == dec_of(x as nat)[0]);
        assert(is_digit(s[i]));
        assert(s[i] != '-');
    }
}

/// A printed string parses back, in place.
pub proof fn lemma_parse_str_rt(s: Seq<char>, i: int, v: Seq<char>)
    requires
        v.len() <= usize::MAX,
        0 <= i,
        i + print_str(v).len() <= s.len(),
        s.subrange(i, i + print_str(v).len()) == print_str(v),
    ensures
        parse_str(s, i) == Some((v, i + print_str(v).len())),
{
    let n = v.len() as nat;
    let l = dec_of(n).len() as int;
    let total = print_str(v).len() as int;
    lemma_dec_digits(n);
    assert forall|m: int| i <= m < i + l implies is_digit(#[trigger] s[m]) by {
        assert(s[m] == s.subrange(i, i + total)[m - i]);
        assert(print_str(v)[m - i] == dec_of(n)[m - i]);
    }
    assert(s[i + l] == s.subrange(i, i + total)[l]);
    assert(print_str(v)[l] == ':');
    assert(!is_digit(s[i + l]));
    lemma_num_end_at(s, i, i + l);
    assert(s.subrange(i, i + l) =~= dec_of(n)) by {
        assert forall|m: int| 0 <= m < l implies s.subrange(i, i + l)[m] == dec_of(n)[m] by {
            assert(s.subrange(i, i + l)[m] == s[i + m]);
            assert(s[i + m] == s.subrange(i, i + total)[m]);
            assert(print_str(v)[m] == dec_of(n)[m]);
        }
    }
    lemma_val_of_dec(s, i, n);
    assert(s[i] == dec_of(n)[0]);
    assert(is_digit(s[i]));
    assert(s.subrange(i + l + 1, i + l + 1 + n) =~= v) by {
        assert forall|m: int| 0 <= m < n implies s.subrange(i + l + 1, i + l + 1 + n)[m]
            == v[m] by {
            assert(s[i + l + 1 + m] == s.subrange(i, i + total)[l + 1 + m]);
            assert(print_str(v)[l + 1 + m] == v[m]);
        }
    }
}

/// A printed literal parses back, in place.
pub proof fn lemma_parse_lit_rt(s: Seq<char>, i: int, l: Seq<char>)
    requires
        0 <= i,
        i + l.len() <= s.len(),
        s.subrange(i, i + l.len()) == l,
    ensures
        parse_lit(s, i, l) == Some(i + l.len()),
{
}

pub open spec fn print_opt_num(o: Option<nat>) -> Seq<char> {
    match o {
        None => "none "@,
        Some(n) => "some "@ + print_num(n),
    }
}

pub open spec fn parse_opt_num(s: Seq<char>, i: int) -> Option<(Option<nat>, int)> {
    if parse_lit(s, i, "none "@) is Some {
        Some((None, parse_lit(s, i, "none "@)->Some_0))
    } else {
        match parse_lit(s, i, "some "@) {
            Some(j) => match parse_num(s, j) {
                Some((v, j2)) => Some((Some(v), j2)),
                None => None,
            },
            None => None,
        }
    }
}

pub open spec fn print_bool(b: bool) -> Seq<char> {
    if b {
        "true "@
    } else {
        "false "@
    }
}

pub open spec fn parse_bool(s: Seq<char>, i: int) -> Option<(bool, int)> {
    if parse_lit(s, i, "true "@) is Some {
        Some((true, parse_lit(s, i, "true "@)->Some_0))
    } else {
        match parse_lit(s, i, "false "@) {
            Some(j) => Some((false, j)),
            None => None,
        }
    }
}

pub open spec fn print_node(n: NodeView) -> Seq<char> {
    "node text "@ + print_str(n.text) + "id "@ + print_str(n.id)
}

pub open spec fn parse_node(s: Seq<char>, i: int) -> Option<(NodeView, int)> {
    match parse_lit(s, i, "node text "@) {
        Some(j0) => match parse_str(s, j0) {
            Some((text, j1)) => match parse_lit(s, j1, "id "@) {
                Some(j2) => match parse_str(s, j2) {
                    Some((id, j3)) => Some((NodeView { text, id }, j3)),
                    None => None,
                },
                None => None,
            },
            None => None,
        },
        None => None,
    }
}

pub open spec fn print_node_list(ns: Seq<NodeView>) -> Seq<char>
    decreases ns.len(),
{
    if ns.len() == 0 {
        Seq::empty()
    } else {
        print_node(ns.first()) + print_node_list(ns.drop_first())
    }
}

pub open spec fn parse_node_list(s: Seq<char>, i: int, count: nat) -> Option<(
    Seq<NodeView>,
    int,
)>
    decreases count,
{
    if count == 0 {
        Some((Seq::empty(), i))
    } else {
        match parse_node(s, i) {
            Some((n, j)) => match parse_node_list(s, j, (count - 1) as nat) {
                Some((rest, j2)) => Some((seq![n] + rest, j2)),
                None => None,
            },
            None => None,
        }
    }
}

pub open spec fn print_opt_nodes(o: Option<Seq<NodeView>>) -> Seq<char> {
    match o {
        None => "nodes none "@,
        Some(ns) => "nodes some "@ + print_num(ns.len()) + print_node_list(ns),
    }
}

pub open spec fn parse_opt_nodes(s: Seq<char>, i: int) -> Option<(
    Option<Seq<NodeView>>,
    int,
)> {
    if parse_lit(s, i, "nodes none "@) is Some {
        Some((None, parse_lit(s, i, "nodes none "@)->Some_0))
    } else {
        match parse_lit(s, i, "nodes some "@) {
            Some(j) => match parse_num(s, j) {
                Some((count, j2)) => if count <= usize::MAX {
                    match parse_node_list(s, j2, count) {
                        Some((ns, j3)) => Some((Some(ns), j3)),
                        None => None,
                    }
                } else {
                    None
                },
                None => None,
            },
            None => None,
        }
    }
}

pub open spec fn print_doc(d: DocView) -> Seq<char> {
    "doc text "@ + print_str(d.text) + "id "@ + print_str(d.id) + print_opt_nodes(d.nodes)
        + "\n"@
}

pub open spec fn parse_doc(s: Seq<char>, i: int) -> Option<(DocView, int)> {
    match parse_lit(s, i, "doc text "@) {
        Some(j0) => match parse_str(s, j0) {
            Some((text, j1)) => match parse_lit(s, j1, "id "@) {
                Some(j2) => match parse_str(s, j2) {
                    Some((id, j3)) => match parse_opt_nodes(s, j3) {
                        Some((nodes, j4)) => match parse_lit(s, j4, "\n"@) {
                            Some(j5) => Some((DocView { text, id, nodes }, j5)),
                            None => None,
                        },
                        None => None,
                    },
                    None => None,
                },
                None => None,
            },
            None => None,
        },
        None => None,
    }
}

pub open spec fn print_doc_list(ds: Seq<DocView>) -> Seq<char>
    decreases ds.len(),
{
    if ds.len() == 0 {
        Seq::empty()
    } else {
        print_doc(ds.first()) + print_doc_list(ds.drop_first())
    }
}

pub open spec fn parse_doc_list(s: Seq<char>, i: int, count: nat) -> Option<(
    Seq<DocView>,
    int,
)>
    decreases count,
{
    if count == 0 {
        Some((Seq::empty(), i))
    } else {
        match parse_doc(s, i) {
            Some((d, j)) => match parse_doc_list(s, j, (count - 1) as nat) {
                Some((rest, j2)) => Some((seq![d] + rest, j2)),
                None => None,
            },
            None => None,
        }
    }
}

pub open spec fn print_comp_list(v: Seq<int>) -> Seq<char>
    decreases v.len(),
{
    if v.len() == 0 {
        Seq::empty()
    } else {
        print_int(v.first()) + print_comp_list(v.drop_first())
    }
}

pub open spec fn parse_comp_list(s: Seq<char>, i: int, count: nat) -> Option<(Seq<int>, int)>
    decreases count,
{
    if count == 0 {
        Some((Seq::empty(), i))
    } else {
        match parse_int(s, i) {
            Some((x, j)) => match parse_comp_list(s, j, (count - 1) as nat) {
                Some((rest, j2)) => Some((seq![x] + rest, j2)),
                None => None,
            },
            None => None,
        }
    }
}

pub open spec fn print_vec(v: Seq<int>) -> Seq<char> {
    print_num(v.len()) + print_comp_list(v)
}

pub open spec fn parse_vec(s: Seq<char>, i: int) -> Option<(Seq<int>, int)> {
    match parse_num(s, i) {
        Some((count, j)) => if count <= usize::MAX {
            parse_comp_list(s, j, count)
        } else {
            None
        },
        None => None,
    }
}

pub open spec fn print_vec_list(vs: Seq<Seq<int>>) -> Seq<char>
    decreases vs.len(),
{
    if vs.len() == 0 {
        Seq::empty()
    } else {
        print_vec(vs.first()) + print_vec_list(vs.drop_first())
    }
}

pub open spec fn parse_vec_list(s: Seq<char>, i: int, count: nat) -> Option<(
    Seq<Seq<int>>,
    int,
)>
    decreases count,
{
    if count == 0 {
        Some((Seq::empty(), i))
    } else {
        match parse_vec(s, i) {
            Some((v, j)) => match parse_vec_list(s, j, (count - 1) as nat) {
                Some((rest, j2)) => Some((seq![v] + rest, j2)),
                None => None,
            },
            None => None,
        }
    }
}

pub open spec fn print_emb(e: EmbeddingView) -> Seq<char> {
    "emb data "@ + print_num(e.data.len()) + print_vec_list(e.data) + "document_id "@
        + print_str(e.document_id) + "document_node_id "@ + print_str(e.document_node_id)
        + "tokens_used "@ + print_num(e.tokens_used) + "\n"@
}

pub open spec fn parse_emb(s: Seq<char>, i: int) -> Option<(EmbeddingView, int)> {
    match parse_lit(s, i, "emb data "@) {
        Some(j0) => match parse_num(s, j0) {
            Some((count, j1)) => if count <= usize::MAX {
                match parse_vec_list(s, j1, count) {
                    Some((data, j2)) => match parse_lit(s, j2, "document_id "@) {
                        Some(j3) => match parse_str(s, j3) {
                            Some((document_id, j4)) => match parse_lit(
                                s,
                                j4,
                                "document_node_id "@,
                            ) {
                                Some(j5) => match parse_str(s, j5) {
                                    Some((document_node_id, j6)) => match parse_lit(
                                        s,
                                        j6,
                                        "tokens_used "@,
                                    ) {
                                        Some(j7) => match parse_num(s, j7) {
                                            Some((tokens_used, j8)) => match parse_lit(
                                                s,
                                                j8,
                                                "\n"@,
                                            ) {
                                                Some(j9) => Some(
                                                    (
                                                        EmbeddingView {
                                                            data,
                                                            tokens_used,
                                                            document_id,
                                                            document_node_id,
                                                        },
                                                        j9,
                                                    ),
                                                ),
                                                None => None,
                                            },
                                            None => None,
                                        },
                                        None => None,
                                    },
                                    None => None,
                                },
                                None => None,
                            },
                            None => None,
                        },
                        None => None,
                    },
                    None => None,
                }
            } else {
                None
            },
            None => None,
        },
        None => None,
    }
}

pub open spec fn print_emb_list(es: Seq<EmbeddingView>) -> Seq<char>
    decreases es.len(),
{
    if es.len() == 0 {
        Seq::empty()
    } else {
        print_emb(es.first()) + print_emb_list(es.drop_first())
    }
}

pub open spec fn parse_emb_list(s: Seq<char>, i: int, count: nat) -> Option<(
    Seq<EmbeddingView>,
    int,
)>
    decreases count,
{
    if count == 0 {
        Some((Seq::empty(), i))
    } else {
        match parse_emb(s, i) {
            Some((e, j)) => match parse_emb_list(s, j, (count - 1) as nat) {
                Some((rest, j2)) => Some((seq![e] + rest, j2)),
                None => None,
            },
            None => None,
        }
    }
}

pub open spec fn print_opt_embs(o: Option<Seq<EmbeddingView>>) -> Seq<char> {
    match o {
        None => "none "@,
        Some(es) => "some "@ + print_num(es.len()) + "\n"@ + print_emb_list(es),
    }
}

pub open spec fn parse_opt_embs(s: Seq<char>, i: int) -> Option<(
    Option<Seq<EmbeddingView>>,
    int,
)> {
    if parse_lit(s, i, "none "@) is Some {
        Some((None, parse_lit(s, i, "none "@)->Some_0))
    } else {
        match parse_lit(s, i, "some "@) {
            Some(j) => match parse_num(s, j) {
                Some((count, j2)) => if count <= usize::MAX {
                    match parse_lit(s, j2, "\n"@) {
                        Some(j3) => match parse_emb_list(s, j3, count) {
                            Some((es, j4)) => Some((Some(es), j4)),
                            None => None,
                        },
                        None => None,
                    }
                } else {
                    None
                },
                None => None,
            },
            None => None,
        }
    }
}

pub open spec fn print_config(c: IndexConfig) -> Seq<char> {
    "config document_chunk_size "@ + print_opt_num(
        match c.document_chunk_size {
            Some(n) => Some(n as nat),
            None => None,
        },
    ) + "verbose "@ + print_bool(c.verbose) + "\n"@
}

pub open spec fn parse_config(s: Seq<char>, i: int) -> Option<(IndexConfig, int)> {
    match parse_lit(s, i, "config document_chunk_size "@) {
        Some(j0) => match parse_opt_num(s, j0) {
            Some((o, j1)) => {
                let ok = match o {
                    Some(n) => n <= usize::MAX,
                    None => true,
                };
                if ok {
                    match parse_lit(s, j1, "verbose "@) {
                        Some(j1v) => match parse_bool(s, j1v) {
                            Some((verbose, j2)) => match parse_lit(s, j2, "\n"@) {
                                Some(j3) => Some(
                                    (
                                        IndexConfig {
                                            document_chunk_size: match o {
                                                Some(n) => Some(n as usize),
                                                None => None,
                                            },
                                            verbose,
                                        },
                                        j3,
                                    ),
                                ),
                                None => None,
                            },
                            None => None,
                        },
                        None => None,
                    }
                } else {
                    None
                }
            },
            None => None,
        },
        None => None,
    }
}

/// The full rendering of an index.
pub open spec fn print_index(v: IndexView) -> Seq<char> {
    "endexindex\n"@ + "documents "@ + print_num(v.documents.len()) + "\n"@ + print_doc_list(
        v.documents,
    ) + "embeddings "@ + print_opt_embs(v.embeddings) + print_config(v.config)
}

fn is_digit_exec(c: char) -> (r: bool)
    ensures
        r == is_digit(c),
{
    c == '0' || c == '1' || c == '2' || c == '3' || c == '4' || c == '5' || c == '6' || c
        == '7' || c == '8' || c == '9'
}

fn digit_val_exec(c: char) -> (r: u64)
    requires
        is_digit(c),
    ensures
        r as nat == digit_val(c),
        r < 10,
{
    match c {
        '0' => 0,
        '1' => 1,
        '2' => 2,
        '3' => 3,
        '4' => 4,
        '5' => 5,
        '6' => 6,
        '7' => 7,
        '8' => 8,
        _ => 9,
    }
}

fn digit_continues(s: &str, j: usize, n: usize) -> (r: bool)
    requires
        n == s@.len(),
        j <= n,
    ensures
        r == (j < n && is_digit(s@[j as int])),
{
    if j < n {
        is_digit_exec(s.get_char(j))
    } else {
        false
    }
}

/// Parses a number token; the result mirrors [`parse_num`].
fn parse_num_exec(s: &str, i: usize) -> (r: Option<(u64, usize)>)
    requires
        i <= s@.len(),
    ensures
        match r {
            Some(p) => parse_num(s@, i as int) == Some((p.0 as nat, p.1 as int)) && p.1 <= s@.len(),
            None => parse_num(s@, i as int) is None,
        },
{
    let n = s.unicode_len();
    if i >= n || !is_digit_exec(s.get_char(i)) {
        return None;
    }
    let mut j = i;
    let mut acc: u128 = 0;
    while digit_continues(s, j, n)
        invariant
            n == s@.len(),
            i <= j <= n,
            num_end(s@, i as int) == num_end(s@, j as int),
            (val_from(s@, i as int, j as int) <= u64::MAX && acc as nat == val_from(
                s@,
                i as int,
                j as int,
            )) || (val_from(s@, i as int, j as int) > u64::MAX && acc > u64::MAX),
        decreases n - j,
    {
        let d = digit_val_exec(s.get_char(j));
        proof {
            assert(val_from(s@, i as int, j + 1) == val_from(s@, i as int, j as int) * 10
                + digit_val(s@[j as int]));
            if val_from(s@, i as int, j as int) > u64::MAX {
                assert(val_from(s@, i as int, j as int) * 10 + digit_val(s@[j as int])
                    > u64::MAX) by (nonlinear_arith)
                    requires
                        val_from(s@, i as int, j as int) > u64::MAX,
                ;
            } else {
                assert(acc * 10 + d <= 0xFFFF_FFFF_FFFF_FFFFu128 * 10 + 9) by (nonlinear_arith)
                    requires
                        acc <= 0xFFFF_FFFF_FFFF_FFFF,
                        d < 10,
                ;
            }
        }
        if acc <= u64::MAX as u128 {
            acc = acc * 10 + (d as u128);
        }
        j = j + 1;
    }
    proof {
        lemma_num_end_bounds(s@, j as int);
        assert(num_end(s@, j as int) == j);
    }
    if j < n && s.get_char(j) == ' ' {
        if acc <= u64::MAX as u128 {
            Some((acc as u64, j + 1))
        } else {
            None
        }
    } else {
        None
    }
}

/// Parses a signed number token; the result mirrors [`parse_int`].
fn parse_int_exec(s: &str, i: usize) -> (r: Option<(i64, usize)>)
    requires
        i <= s@.len(),
    ensures
        match r {
            Some(p) => parse_int(s@, i as int) == Some((p.0 as int, p.1 as int)) && p.1 <= s@.len(),
            None => parse_int(s@, i as int) is None,
        },
{
    let n = s.unicode_len();
    if i < n && s.get_char(i) == '-' {
        match parse_num_exec(s, i + 1) {
            Some((v, j)) => {
                if v <= 0x8000_0000_0000_0000u64 {
                    let x: i64 = (-(v as i128)) as i64;
                    proof {
                        assert(x as int == -(v as int));
                    }
                    Some((x, j))
                } else {
                    None
                }
            },
            None => None,
        }
    } else {
        match parse_num_exec(s, i) {
            Some((v, j)) => {
                if v <= i64::MAX as u64 {
                    Some((v as i64, j))
                } else {
                    None
                }
            },
            None => None,
        }
    }
}

/// Parses a length-prefixed string; the result mirrors [`parse_str`].
fn parse_str_exec(s: &str, i: usize) -> (r: Option<(String, usize)>)
    requires
        i <= s@.len(),
    ensures
        match r {
            Some(p) => parse_str(s@, i as int) matches Some(q) && q.0 == p.0@ && q.1 == p.1
                as int && p.1 <= s@.len(),
            None => parse_str(s@, i as int) is None,
        },
{
    let n = s.unicode_len();
    if i >= n || !is_digit_exec(s.get_char(i)) {
        return None;
    }
    let mut j = i;
    let mut acc: u128 = 0;
    while digit_continues(s, j, n)
        invariant
            n == s@.len(),
            i <= j <= n,
            num_end(s@, i as int) == num_end(s@, j as int),
            (val_from(s@, i as int, j as int) <= u64::MAX && acc as nat == val_from(
                s@,
                i as int,
                j as int,
            )) || (val_from(s@, i as int, j as int) > u64::MAX && acc > u64::MAX),
        decreases n - j,
    {
        let d = digit_val_exec(s.get_char(j));
        proof {
            assert(val_from(s@, i as int, j + 1) == val_from(s@, i as int, j as int) * 10
                + digit_val(s@[j as int]));
            if val_from(s@, i as int, j as int) > u64::MAX {
                assert(val_from(s@, i as int, j as int) * 10 + digit_val(s@[j as int])
                    > u64::MAX) by (nonlinear_arith)
                    requires
                        val_from(s@, i as int, j as int) > u64::MAX,
                ;
            } else {
                assert(acc * 10 + d <= 0xFFFF_FFFF_FFFF_FFFFu128 * 10 + 9) by (nonlinear_arith)
                    requires
                        acc <= 0xFFFF_FFFF_FFFF_FFFF,
                        d < 10,
                ;
            }
        }
        if acc <= u64::MAX as u128 {
            acc = acc * 10 + (d as u128);
        }
        j = j + 1;
    }
    proof {
        lemma_num_end_bounds(s@, j as int);
        assert(num_end(s@, j as int) == j);
    }
    if j < n && s.get_char(j) == ':' && acc <= usize::MAX as u128 {
        let v = acc as usize;
        if v <= n - (j + 1) {
            let w = s.substring_char(j + 1, j + 1 + v);
            Some((String::from_str(w), j + 1 + v))
        } else {
            None
        }
    } else {
        None
    }
}

/// Parses a fixed literal; the result mirrors [`parse_lit`].
fn parse_lit_exec(s: &str, i: usize, l: &str) -> (r: Option<usize>)
    requires
        i <= s@.len(),
    ensures
        match r {
            Some(j) => parse_lit(s@, i as int, l@) == Some(j as int) && j <= s@.len(),
            None => parse_lit(s@, i as int, l@) is None,
        },
{
    let n = s.unicode_len();
    let ln = l.unicode_len();
    if ln > n - i {
        return None;
    }
    let sub = s.substring_char(i, i + ln);
    if str_eq(sub, l) {
        Some(i + ln)
    } else {
        None
    }
}

/// The parse of a rendered index.
pub open spec fn parse_index(s: Seq<char>, i: int) -> Option<(IndexView, int)> {
    match parse_lit(s, i, "endexindex\n"@) {
        Some(j0) => match parse_lit(s, j0, "documents "@) {
            Some(j1) => match parse_num(s, j1) {
                Some((count, j2)) => if count <= usize::MAX {
                    match parse_lit(s, j2, "\n"@) {
                        Some(j3) => match parse_doc_list(s, j3, count) {
                            Some((documents, j4)) => match parse_lit(s, j4, "embeddings "@) {
                                Some(j5) => match parse_opt_embs(s, j5) {
                                    Some((embeddings, j6)) => match parse_config(s, j6) {
                                        Some((config, j7)) => Some(
                                            (IndexView { documents, embeddings, config }, j7),
                                        ),
                                        None => None,
                                    },
                                    None => None,
                                },
                                None => None,
                            },
                            None => None,
                        },
                        None => None,
                    }
                } else {
                    None
                },
                None => None,
            },
            None => None,
        },
        None => None,
    }
}

fn emit_num(out: &mut String, n: u64)
    ensures
        final(out)@ == old(out)@ + print_num(n as nat),
{
    let d = u64_to_string(n);
    out.append(d.as_str());
    out.append(" ");
    proof {
        reveal_strlit(" ");
        assert((old(out)@ + dec_of(n as nat)) + " "@ =~= old(out)@ + print_num(n as nat));
    }
}

fn emit_int(out: &mut String, x: i64)
    ensures
        final(out)@ == old(out)@ + print_int(x as int),
{
    if x < 0 {
        out.append("-");
        let m: u64 = (-(x as i128)) as u64;
        proof {
            assert(m as nat == (-(x as int)) as nat);
        }
        emit_num(out, m);
        proof {
            reveal_strlit("-");
            assert("-"@ =~= seq!['-']);
            assert((old(out)@ + "-"@) + print_num(m as nat) =~= old(out)@ + print_int(
                x as int));
        }
    } else {
        emit_num(out, x as u64);
    }
}

fn emit_str(out: &mut String, s: &str)
    ensures
        final(out)@ == old(out)@ + print_str(s@),
{
    let l = s.unicode_len();
    let d = u64_to_string(l as u64);
    out.append(d.as_str());
    out.append(":");
    out.append(s);
    proof {
        reveal_strlit(":");
        assert(":"@ =~= seq![':']);
        assert(((old(out)@ + dec_of(s@.len())) + ":"@) + s@ =~= old(out)@ + print_str(s@));
    }
}

proof fn lemma_print_node_list_snoc(ns: Seq<NodeView>, x: NodeView)
    ensures
        print_node_list(ns.push(x)) == print_node_list(ns) + print_node(x),
    decreases ns.len(),
{
    if ns.len() == 0 {
        assert(ns.push(x).drop_first() =~= Seq::<NodeView>::empty());
        assert(print_node_list(Seq::<NodeView>::empty()) == Seq::<char>::empty());
        assert(ns.push(x).first() == x);
        assert(print_node_list(ns.push(x)) =~= print_node_list(ns) + print_node(x));
    } else {
        assert(ns.push(x).drop_first() =~= ns.drop_first().push(x));
        assert(ns.push(x).first() == ns.first());
        lemma_print_node_list_snoc(ns.drop_first(), x);
        assert(print_node(ns.first()) + (print_node_list(ns.drop_first()) + print_node(x))
            =~= print_node_list(ns) + print_node(x));
    }
}

proof fn lemma_print_doc_list_snoc(ds: Seq<DocView>, x: DocView)
    ensures
        print_doc_list(ds.push(x)) == print_doc_list(ds) + print_doc(x),
    decreases ds.len(),
{
    if ds.len() == 0 {
        assert(ds.push(x).drop_first() =~= Seq::<DocView>::empty());
        assert(print_doc_list(Seq::<DocView>::empty()) == Seq::<char>::empty());
        assert(ds.push(x).first() == x);
        assert(print_doc_list(ds.push(x)) =~= print_doc_list(ds) + print_doc(x));
    } else {
        assert(ds.push(x).drop_first() =~= ds.drop_first().push(x));
        assert(ds.push(x).first() == ds.first());
        lemma_print_doc_list_snoc(ds.drop_first(), x);
        assert(print_doc(ds.first()) + (print_doc_list(ds.drop_first()) + print_doc(x))
            =~= print_doc_list(ds) + print_doc(x));
    }
}

proof fn lemma_print_comp_list_snoc(v: Seq<int>, x: int)
    ensures
        print_comp_list(v.push(x)) == print_comp_list(v) + print_int(x),
    decreases v.len(),
{
    if v.len() == 0 {
        assert(v.push(x).drop_first() =~= Seq::<int>::empty());
        assert(print_comp_list(Seq::<int>::empty()) == Seq::<char>::empty());
        assert(v.push(x).first() == x);
        assert(print_comp_list(v.push(x)) =~= print_comp_list(v) + print_int(x));
    } else {
        assert(v.push(x).drop_first() =~= v.drop_first().push(x));
        assert(v.push(x).first() == v.first());
        lemma_print_comp_list_snoc(v.drop_first(), x);
        assert(print_int(v.first()) + (print_comp_list(v.drop_first()) + print_int(x))
            =~= print_comp_list(v) + print_int(x));
    }
}

proof fn lemma_print_vec_list_snoc(vs: Seq<Seq<int>>, x: Seq<int>)
    ensures
        print_vec_list(vs.push(x)) == print_vec_list(vs) + print_vec(x),
    decreases vs.len(),
{
    if vs.len() == 0 {
        assert(vs.push(x).drop_first() =~= Seq::<Seq<int>>::empty());
        assert(print_vec_list(Seq::<Seq<int>>::empty()) == Seq::<char>::empty());
        assert(vs.push(x).first() == x);
        assert(print_vec_list(vs.push(x)) =~= print_vec_list(vs) + print_vec(x));
    } else {
        assert(vs.push(x).drop_first() =~= vs.drop_first().push(x));
        assert(vs.push(x).first() == vs.first());
        lemma_print_vec_list_snoc(vs.drop_first(), x);
        assert(print_vec(vs.first()) + (print_vec_list(vs.drop_first()) + print_vec(x))
            =~= print_vec_list(vs) + print_vec(x));
    }
}

proof fn lemma_print_emb_list_snoc(es: Seq<EmbeddingView>, x: EmbeddingView)
    ensures
        print_emb_list(es.push(x)) == print_emb_list(es) + print_emb(x),
    decreases es.len(),
{
    if es.len() == 0 {
        assert(es.push(x).drop_first() =~= Seq::<EmbeddingView>::empty());
        assert(print_emb_list(Seq::<EmbeddingView>::empty()) == Seq::<char>::empty());
        assert(es.push(x).first() == x);
        assert(print_emb_list(es.push(x)) =~= print_emb_list(es) + print_emb(x));
    } else {
        assert(es.push(x).drop_first() =~= es.drop_first().push(x));
        assert(es.push(x).first() == es.first());
        lemma_print_emb_list_snoc(es.drop_first(), x);
        assert(print_emb(es.first()) + (print_emb_list(es.drop_first()) + print_emb(x))
            =~= print_emb_list(es) + print_emb(x));
    }
}

fn emit_opt_nodes(out: &mut String, nodes: &Option<Vec<DocumentNode>>)
    ensures
        final(out)@ == old(out)@ + print_opt_nodes(
            match *nodes {
                Some(ns) => Some(ns@.map_values(|n: DocumentNode| n@)),
                None => None,
            },
        ),
{
    match nodes {
        None => {
            out.append("nodes none ");
        },
        Some(ns) => {
            let ghost nv = ns@.map_values(|n: DocumentNode| n@);
            out.append("nodes some ");
            emit_num(out, ns.len() as u64);
            let ghost base = out@;
            let mut k: usize = 0;
            proof {
                assert(nv.take(0) =~= Seq::<NodeView>::empty());
                assert(base + print_node_list(nv.take(0)) =~= base);
            }
            while k < ns.len()
                invariant
                    nv == ns@.map_values(|n: DocumentNode| n@),
                    0 <= k <= ns@.len(),
                    out@ == base + print_node_list(nv.take(k as int)),
                decreases ns@.len() - k,
            {
                proof {
                    assert(nv[k as int] == ns@[k as int]@);
                }
                out.append("node text ");
                emit_str(out, ns[k].text.as_str());
                out.append("id ");
                emit_str(out, ns[k].id.as_str());
                proof {
                    reveal_strlit("node text ");
                    reveal_strlit("id ");
                    lemma_print_node_list_snoc(nv.take(k as int), nv[k as int]);
                    assert(nv.take(k + 1) =~= nv.take(k as int).push(nv[k as int]));
                    assert(((((base + print_node_list(nv.take(k as int))) + "node text "@)
                        + print_str(nv[k as int].text)) + "id "@) + print_str(
                        nv[k as int].id,
                    ) =~= base + print_node_list(nv.take(k + 1)));
                }
                k = k + 1;
            }
            proof {
                reveal_strlit("nodes some ");
                assert(nv.take(ns@.len() as int) =~= nv);
                assert(((old(out)@ + "nodes some "@) + print_num(ns@.len()))
                    + print_node_list(nv) =~= old(out)@ + print_opt_nodes(Some(nv)));
            }
        },
    }
    proof {
        reveal_strlit("nodes none ");
    }
}

impl VectorIndex {
    /// Renders the whole index, documents then embeddings then
    /// configuration, as the persisted text format.
    #[verifier::rlimit(100)]
    #[verifier::spinoff_prover]
    pub fn encode(&self) -> (r: String)
        ensures
            r@ == print_index(self@),
    {
        let mut out = String::new();
        out.append("endexindex\n");
        out.append("documents ");
        emit_num(&mut out, self.documents.len() as u64);
        out.append("\n");
        let ghost dv = self@.documents;
        let ghost base = out@;
        let mut i: usize = 0;
        proof {
            assert(dv.take(0) =~= Seq::<DocView>::empty());
            assert(base + print_doc_list(dv.take(0)) =~= base);
        }
        while i < self.documents.len()
            invariant
                dv == self@.documents,
                0 <= i <= self.documents@.len(),
                dv.len() == self.documents@.len(),
                out@ == base + print_doc_list(dv.take(i as int)),
            decreases self.documents@.len() - i,
        {
            let d = &self.documents[i];
            proof {
                assert(dv[i as int] == self.documents@[i as int]@);
            }
            out.append("doc text ");
            emit_str(&mut out, d.text.as_str());
            out.append("id ");
            emit_str(&mut out, d.id.as_str());
            emit_opt_nodes(&mut out, &d.nodes);
            out.append("\n");
            proof {
                reveal_strlit("doc text ");
                reveal_strlit("id ");
                reveal_strlit("\n");
                lemma_print_doc_list_snoc(dv.take(i as int), dv[i as int]);
                assert(dv.take(i + 1) =~= dv.take(i as int).push(dv[i as int]));
                assert(((((((base + print_doc_list(dv.take(i as int))) + "doc text "@)
                    + print_str(dv[i as int].text)) + "id "@) + print_str(dv[i as int].id))
                    + print_opt_nodes(dv[i as int].nodes)) + "\n"@ =~= base + print_doc_list(
                    dv.take(i + 1)));
            }
            i = i + 1;
        }
        proof {
            assert(dv.take(dv.len() as int) =~= dv);
        }
        out.append("embeddings ");
        match &self.embeddings {
            None => {
                out.append("none ");
            },
            Some(es) => {
                let ghost evs = es@.map_values(|e: Embedding| e@);
                out.append("some ");
                emit_num(&mut out, es.len() as u64);
                out.append("\n");
                let ghost ebase = out@;
                let mut k: usize = 0;
                proof {
                    assert(evs.take(0) =~= Seq::<EmbeddingView>::empty());
                    assert(ebase + print_emb_list(evs.take(0)) =~= ebase);
                }
                while k < es.len()
                    invariant
                        evs == es@.map_values(|e: Embedding| e@),
                        0 <= k <= es@.len(),
                        out@ == ebase + print_emb_list(evs.take(k as int)),
                    decreases es@.len() - k,
                {
                    let e = &es[k];
                    proof {
                        assert(evs[k as int] == es@[k as int]@);
                    }
                    out.append("emb data ");
                    emit_num(&mut out, e.data.len() as u64);
                    let ghost vbase = out@;
                    let ghost vv = e.data@.map_values(|v: Vec<i64>| ints(v@));
                    let mut w: usize = 0;
                    proof {
                        assert(vv.take(0) =~= Seq::<Seq<int>>::empty());
                        assert(vbase + print_vec_list(vv.take(0)) =~= vbase);
                    }
                    while w < e.data.len()
                        invariant
                            vv == e.data@.map_values(|v: Vec<i64>| ints(v@)),
                            0 <= w <= e.data@.len(),
                            out@ == vbase + print_vec_list(vv.take(w as int)),
                        decreases e.data@.len() - w,
                    {
                        let vec = &e.data[w];
                        proof {
                            assert(vv[w as int] == ints(e.data@[w as int]@));
                        }
                        emit_num(&mut out, vec.len() as u64);
                        let ghost cbase = out@;
                        let ghost cv = ints(vec@);
                        let mut c: usize = 0;
                        proof {
                            assert(cv.take(0) =~= Seq::<int>::empty());
                            assert(cbase + print_comp_list(cv.take(0)) =~= cbase);
                        }
                        while c < vec.len()
                            invariant
                                cv == ints(vec@),
                                0 <= c <= vec@.len(),
                                out@ == cbase + print_comp_list(cv.take(c as int)),
                            decreases vec@.len() - c,
                        {
                            proof {
                                assert(cv[c as int] == vec@[c as int] as int);
                            }
                            emit_int(&mut out, vec[c]);
                            proof {
                                lemma_print_comp_list_snoc(cv.take(c as int), cv[c as int]);
                                assert(cv.take(c + 1) =~= cv.take(c as int).push(cv[c as int]));
                            }
                            c = c + 1;
                        }
                        proof {
                            assert(cv.take(vec@.len() as int) =~= cv);
                            lemma_print_vec_list_snoc(vv.take(w as int), vv[w as int]);
                            assert(vv.take(w + 1) =~= vv.take(w as int).push(vv[w as int]));
                            assert((vbase + print_vec_list(vv.take(w as int))) + (print_num(
                                cv.len(),
                            ) + print_comp_list(cv)) =~= vbase + print_vec_list(vv.take(w + 1)));
                        }
                        w = w + 1;
                    }
                    out.append("document_id ");
                    emit_str(&mut out, e.document_id.as_str());
                    out.append("document_node_id ");
                    emit_str(&mut out, e.document_node_id.as_str());
                    out.append("tokens_used ");
                    emit_num(&mut out, e.tokens_used);
                    out.append("\n");
                    proof {
                        reveal_strlit("emb data ");
                        reveal_strlit("document_id ");
                        reveal_strlit("document_node_id ");
                        reveal_strlit("tokens_used ");
                        reveal_strlit("\n");
                        assert(vv.take(e.data@.len() as int) =~= vv);
                        lemma_print_emb_list_snoc(evs.take(k as int), evs[k as int]);
                        assert(evs.take(k + 1) =~= evs.take(k as int).push(evs[k as int]));
                        assert((((((((((ebase + print_emb_list(evs.take(k as int)))
                            + "emb data "@) + print_num(evs[k as int].data.len())
                            + print_vec_list(evs[k as int].data)) + "document_id "@)
                            + print_str(evs[k as int].document_id)) + "document_node_id "@)
                            + print_str(evs[k as int].document_node_id)) + "tokens_used "@)
                            + print_num(evs[k as int].tokens_used)) + "\n"@ =~= ebase
                            + print_emb_list(evs.take(k + 1)));
                    }
                    k = k + 1;
                }
                proof {
                    assert(evs.take(es@.len() as int) =~= evs);
                }
            },
        }
        out.append("config document_chunk_size ");
        match self.config.document_chunk_size {
            None => {
                out.append("none ");
            },
            Some(sz) => {
                out.append("some ");
                emit_num(&mut out, sz as u64);
            },
        }
        out.append("verbose ");
        if self.config.verbose {
            out.append("true ");
        } else {
            out.append("false ");
        }
        out.append("\n");
        proof {
            reveal_strlit("endexindex\n");
            reveal_strlit("documents ");
            reveal_strlit("embeddings ");
            reveal_strlit("config document_chunk_size ");
            reveal_strlit("verbose ");
            reveal_strlit("none ");
            reveal_strlit("some ");
            reveal_strlit("true ");
            reveal_strlit("false ");
            reveal_strlit("\n");
            assert(out@ =~= print_index(self@));
        }
        out
    }
}

/// A part of a matched region is itself matched, shifted in place.
proof fn lemma_sub_slice(s: Seq<char>, i: int, p: Seq<char>, off: int, part: Seq<char>)
    requires
        0 <= i,
        i + p.len() <= s.len(),
        s.subrange(i, i + p.len()) == p,
        0 <= off,
        off + part.len() <= p.len(),
        p.subrange(off, off + part.len()) == part,
    ensures
        s.subrange(i + off, i + off + part.len()) == part,
{
    assert forall|m: int| 0 <= m < part.len() implies #[trigger] s.subrange(
        i + off,
        i + off + part.len(),
    )[m] == part[m] by {
        assert(s[i + off + m] == s.subrange(i, i + p.len())[off + m]);
        assert(p[off + m] == p.subrange(off, off + part.len())[m]);
    }
    assert(s.subrange(i + off, i + off + part.len()) =~= part);
}

/// Everything the text format can carry: lengths that fit the machine
/// and components that fit their stored width.
pub open spec fn str_ok(v: Seq<char>) -> bool {
    v.len() <= usize::MAX
}

pub open spec fn node_ok(n: NodeView) -> bool {
    str_ok(n.id) && str_ok(n.text)
}

pub open spec fn doc_ok(d: DocView) -> bool {
    str_ok(d.id) && str_ok(d.text) && match d.nodes {
        Some(ns) => ns.len() <= usize::MAX && forall|m: int|
            0 <= m < ns.len() ==> node_ok(#[trigger] ns[m]),
        None => true,
    }
}

pub open spec fn vec_ok(v: Seq<int>) -> bool {
    v.len() <= usize::MAX && forall|m: int|
        0 <= m < v.len() ==> i64::MIN <= #[trigger] v[m] <= i64::MAX
}

pub open spec fn emb_ok(e: EmbeddingView) -> bool {
    str_ok(e.document_id) && str_ok(e.document_node_id) && e.tokens_used <= u64::MAX
        && e.data.len() <= usize::MAX && forall|m: int|
        0 <= m < e.data.len() ==> vec_ok(#[trigger] e.data[m])
}

/// An index the text format can carry: every length fits the machine,
/// as holds of any index actually held in memory.
pub open spec fn index_ok(v: IndexView) -> bool {
    v.documents.len() <= usize::MAX && (forall|m: int|
        0 <= m < v.documents.len() ==> doc_ok(#[trigger] v.documents[m])) && match v.embeddings {
        Some(es) => es.len() <= usize::MAX && forall|m: int|
            0 <= m < es.len() ==> emb_ok(#[trigger] es[m]),
        None => true,
    }
}

proof fn lemma_parse_node_rt(s: Seq<char>, i: int, n: NodeView)
    requires
        node_ok(n),
        0 <= i,
        i + print_node(n).len() <= s.len(),
        s.subrange(i, i + print_node(n).len()) == print_node(n),
    ensures
        parse_node(s, i) == Some((n, i + print_node(n).len())),
{
    reveal_strlit("node text ");
    reveal_strlit("id ");
    let p = print_node(n);
    let a = "node text "@;
    let b = print_str(n.text);
    let c = "id "@;
    let d = print_str(n.id);
    assert(p == a + (b + (c + d))) by {
        assert(a + b + c + d =~= a + (b + (c + d)));
    }
    assert(p.subrange(0, a.len() as int) =~= a);
    assert(p.subrange(a.len() as int, (a.len() + b.len()) as int) =~= b);
    assert(p.subrange((a.len() + b.len()) as int, (a.len() + b.len() + c.len()) as int)
        =~= c);
    assert(p.subrange((a.len() + b.len() + c.len()) as int, p.len() as int) =~= d);
    lemma_sub_slice(s, i, p, 0, a);
    lemma_sub_slice(s, i, p, a.len() as int, b);
    lemma_sub_slice(s, i, p, (a.len() + b.len()) as int, c);
    lemma_sub_slice(s, i, p, (a.len() + b.len() + c.len()) as int, d);
    lemma_parse_lit_rt(s, i, a);
    lemma_parse_str_rt(s, i + a.len(), n.text);
    lemma_parse_lit_rt(s, i + (a.len() + b.len()) as int, c);
    lemma_parse_str_rt(s, i + (a.len() + b.len() + c.len()) as int, n.id);
}

proof fn lemma_parse_node_list_rt(s: Seq<char>, i: int, ns: Seq<NodeView>)
    requires
        forall|m: int| 0 <= m < ns.len() ==> node_ok(#[trigger] ns[m]),
        0 <= i,
        i + print_node_list(ns).len() <= s.len(),
        s.subrange(i, i + print_node_list(ns).len()) == print_node_list(ns),
    ensures
        parse_node_list(s, i, ns.len()) == Some((ns, i + print_node_list(ns).len())),
    decreases ns.len(),
{
    if ns.len() == 0 {
        assert(parse_node_list(s, i, 0) == Some((Seq::<NodeView>::empty(), i)));
        assert(ns =~= Seq::<NodeView>::empty());
    } else {
        let p = print_node_list(ns);
        let a = print_node(ns.first());
        let b = print_node_list(ns.drop_first());
        assert(p == a + b);
        assert(p.subrange(0, a.len() as int) =~= a);
        assert(p.subrange(a.len() as int, (a.len() + b.len()) as int) =~= b);
        lemma_sub_slice(s, i, p, 0, a);
        lemma_sub_slice(s, i, p, a.len() as int, b);
        assert(node_ok(ns.first()));
        lemma_parse_node_rt(s, i, ns.first());
        assert forall|m: int| 0 <= m < ns.drop_first().len() implies node_ok(
            #[trigger] ns.drop_first()[m],
        ) by {
            assert(ns.drop_first()[m] == ns[m + 1]);
        }
        lemma_parse_node_list_rt(s, i + a.len(), ns.drop_first());
        assert(seq![ns.first()] + ns.drop_first() =~= ns);
    }
}

proof fn lemma_parse_opt_nodes_rt(s: Seq<char>, i: int, o: Option<Seq<NodeView>>)
    requires
        match o {
            Some(ns) => ns.len() <= usize::MAX && forall|m: int|
                0 <= m < ns.len() ==> node_ok(#[trigger] ns[m]),
            None => true,
        },
        0 <= i,
        i + print_opt_nodes(o).len() <= s.len(),
        s.subrange(i, i + print_opt_nodes(o).len()) == print_opt_nodes(o),
    ensures
        parse_opt_nodes(s, i) == Some((o, i + print_opt_nodes(o).len())),
{
    reveal_strlit("nodes none ");
    reveal_strlit("nodes some ");
    let p = print_opt_nodes(o);
    match o {
        None => {
            lemma_parse_lit_rt(s, i, "nodes none "@);
        },
        Some(ns) => {
            let a = "nodes some "@;
            let b = print_num(ns.len());
            let c = print_node_list(ns);
            assert(p == a + (b + c)) by {
                assert(a + b + c =~= a + (b + c));
            }
            assert(p.subrange(0, a.len() as int) =~= a);
            assert(p.subrange(a.len() as int, (a.len() + b.len()) as int) =~= b);
            assert(p.subrange((a.len() + b.len()) as int, p.len() as int) =~= c);
            lemma_sub_slice(s, i, p, 0, a);
            lemma_sub_slice(s, i, p, a.len() as int, b);
            lemma_sub_slice(s, i, p, (a.len() + b.len()) as int, c);
            lemma_parse_lit_rt(s, i, a);
            assert(usize::MAX <= u64::MAX);
            lemma_parse_num_rt(s, i + a.len(), ns.len());
            lemma_parse_node_list_rt(s, i + (a.len() + b.len()) as int, ns);
            // the "nodes none " branch does not fire: character 6 differs
            assert(s.subrange(i, i + 11) =~= a);
            assert(a[6] == 's' && "nodes none "@[6] == 'n');
            assert(parse_lit(s, i, "nodes none "@) is None);
        },
    }
}

proof fn lemma_parse_doc_rt(s: Seq<char>, i: int, d: DocView)
    requires
        doc_ok(d),
        0 <= i,
        i + print_doc(d).len() <= s.len(),
        s.subrange(i, i + print_doc(d).len()) == print_doc(d),
    ensures
        parse_doc(s, i) == Some((d, i + print_doc(d).len())),
{
    reveal_strlit("doc text ");
    reveal_strlit("id ");
    reveal_strlit("\n");
    let p = print_doc(d);
    let a = "doc text "@;
    let b = print_str(d.text);
    let c = "id "@;
    let e = print_str(d.id);
    let g = print_opt_nodes(d.nodes);
    let f = "\n"@;
    assert(p == a + (b + (c + (e + (g + f))))) by {
        assert(a + b + c + e + g + f =~= a + (b + (c + (e + (g + f)))));
    }
    assert(p.subrange(0, a.len() as int) =~= a);
    assert(p.subrange(a.len() as int, (a.len() + b.len()) as int) =~= b);
    assert(p.subrange((a.len() + b.len()) as int, (a.len() + b.len() + c.len()) as int) =~= c);
    assert(p.subrange(
        (a.len() + b.len() + c.len()) as int,
        (a.len() + b.len() + c.len() + e.len()) as int,
    ) =~= e);
    assert(p.subrange(
        (a.len() + b.len() + c.len() + e.len()) as int,
        (a.len() + b.len() + c.len() + e.len() + g.len()) as int,
    ) =~= g);
    assert(p.subrange((a.len() + b.len() + c.len() + e.len() + g.len()) as int, p.len() as int)
        =~= f);
    lemma_sub_slice(s, i, p, 0, a);
    lemma_sub_slice(s, i, p, a.len() as int, b);
    lemma_sub_slice(s, i, p, (a.len() + b.len()) as int, c);
    lemma_sub_slice(s, i, p, (a.len() + b.len() + c.len()) as int, e);
    lemma_sub_slice(s, i, p, (a.len() + b.len() + c.len() + e.len()) as int, g);
    lemma_sub_slice(s, i, p, (a.len() + b.len() + c.len() + e.len() + g.len()) as int, f);
    lemma_parse_lit_rt(s, i, a);
    lemma_parse_str_rt(s, i + a.len(), d.text);
    lemma_parse_lit_rt(s, i + (a.len() + b.len()) as int, c);
    lemma_parse_str_rt(s, i + (a.len() + b.len() + c.len()) as int, d.id);
    lemma_parse_opt_nodes_rt(s, i + (a.len() + b.len() + c.len() + e.len()) as int, d.nodes);
    lemma_parse_lit_rt(s, i + (a.len() + b.len() + c.len() + e.len() + g.len()) as int, f);
}

proof fn lemma_parse_doc_list_rt(s: Seq<char>, i: int, ds: Seq<DocView>)
    requires
        forall|m: int| 0 <= m < ds.len() ==> doc_ok(#[trigger] ds[m]),
        0 <= i,
        i + print_doc_list(ds).len() <= s.len(),
        s.subrange(i, i + print_doc_list(ds).len()) == print_doc_list(ds),
    ensures
        parse_doc_list(s, i, ds.len()) == Some((ds, i + print_doc_list(ds).len())),
    decreases ds.len(),
{
    if ds.len() == 0 {
        assert(ds =~= Seq::<DocView>::empty());
    } else {
        let p = print_doc_list(ds);
        let a = print_doc(ds.first());
        let b = print_doc_list(ds.drop_first());
        assert(p == a + b);
        assert(p.subrange(0, a.len() as int) =~= a);
        assert(p.subrange(a.len() as int, (a.len() + b.len()) as int) =~= b);
        lemma_sub_slice(s, i, p, 0, a);
        lemma_sub_slice(s, i, p, a.len() as int, b);
        assert(doc_ok(ds.first()));
        lemma_parse_doc_rt(s, i, ds.first());
        assert forall|m: int| 0 <= m < ds.drop_first().len() implies doc_ok(
            #[trigger] ds.drop_first()[m],
        ) by {
            assert(ds.drop_first()[m] == ds[m + 1]);
        }
        lemma_parse_doc_list_rt(s, i + a.len(), ds.drop_first());
        assert(seq![ds.first()] + ds.drop_first() =~= ds);
    }
}

proof fn lemma_parse_comp_list_rt(s: Seq<char>, i: int, v: Seq<int>)
    requires
        forall|m: int| 0 <= m < v.len() ==> i64::MIN <= #[trigger] v[m] <= i64::MAX,
        0 <= i,
        i + print_comp_list(v).len() <= s.len(),
        s.subrange(i, i + print_comp_list(v).len()) == print_comp_list(v),
    ensures
        parse_comp_list(s, i, v.len()) == Some((v, i + print_comp_list(v).len())),
    decreases v.len(),
{
    if v.len() == 0 {
        assert(v =~= Seq::<int>::empty());
    } else {
        let p = print_comp_list(v);
        let a = print_int(v.first());
        let b = print_comp_list(v.drop_first());
        assert(p == a + b);
        assert(p.subrange(0, a.len() as int) =~= a);
        assert(p.subrange(a.len() as int, (a.len() + b.len()) as int) =~= b);
        lemma_sub_slice(s, i, p, 0, a);
        lemma_sub_slice(s, i, p, a.len() as int, b);
        lemma_parse_int_rt(s, i, v.first());
        assert forall|m: int| 0 <= m < v.drop_first().len() implies i64::MIN <= (
        #[trigger] v.drop_first()[m]) <= i64::MAX by {
            assert(v.drop_first()[m] == v[m + 1]);
        }
        lemma_parse_comp_list_rt(s, i + a.len(), v.drop_first());
        assert(seq![v.first()] + v.drop_first() =~= v);
    }
}

proof fn lemma_parse_vec_rt(s: Seq<char>, i: int, v: Seq<int>)
    requires
        vec_ok(v),
        0 <= i,
        i + print_vec(v).len() <= s.len(),
        s.subrange(i, i + print_vec(v).len()) == print_vec(v),
    ensures
        parse_vec(s, i) == Some((v, i + print_vec(v).len())),
{
    let p = print_vec(v);
    let a = print_num(v.len());
    let b = print_comp_list(v);
    assert(p == a + b);
    assert(p.subrange(0, a.len() as int) =~= a);
    assert(p.subrange(a.len() as int, (a.len() + b.len()) as int) =~= b);
    lemma_sub_slice(s, i, p, 0, a);
    lemma_sub_slice(s, i, p, a.len() as int, b);
    assert(usize::MAX <= u64::MAX);
    lemma_parse_num_rt(s, i, v.len());
    lemma_parse_comp_list_rt(s, i + a.len(), v);
}

proof fn lemma_parse_vec_list_rt(s: Seq<char>, i: int, vs: Seq<Seq<int>>)
    requires
        forall|m: int| 0 <= m < vs.len() ==> vec_ok(#[trigger] vs[m]),
        0 <= i,
        i + print_vec_list(vs).len() <= s.len(),
        s.subrange(i, i + print_vec_list(vs).len()) == print_vec_list(vs),
    ensures
        parse_vec_list(s, i, vs.len()) == Some((vs, i + print_vec_list(vs).len())),
    decreases vs.len(),
{
    if vs.len() == 0 {
        assert(vs =~= Seq::<Seq<int>>::empty());
    } else {
        let p = print_vec_list(vs);
        let a = print_vec(vs.first());
        let b = print_vec_list(vs.drop_first());
        assert(p == a + b);
        assert(p.subrange(0, a.len() as int) =~= a);
        assert(p.subrange(a.len() as int, (a.len() + b.len()) as int) =~= b);
        lemma_sub_slice(s, i, p, 0, a);
        lemma_sub_slice(s, i, p, a.len() as int, b);
        assert(vec_ok(vs.first()));
        lemma_parse_vec_rt(s, i, vs.first());
        assert forall|m: int| 0 <= m < vs.drop_first().len() implies vec_ok(
            #[trigger] vs.drop_first()[m],
        ) by {
            assert(vs.drop_first()[m] == vs[m + 1]);
        }
        lemma_parse_vec_list_rt(s, i + a.len(), vs.drop_first());
        assert(seq![vs.first()] + vs.drop_first() =~= vs);
    }
}

#[verifier::rlimit(100)]
#[verifier::spinoff_prover]
proof fn lemma_parse_emb_rt(s: Seq<char>, i: int, e: EmbeddingView)
    requires
        emb_ok(e),
        0 <= i,
        i + print_emb(e).len() <= s.len(),
        s.subrange(i, i + print_emb(e).len()) == print_emb(e),
    ensures
        parse_emb(s, i) == Some((e, i + print_emb(e).len())),
{
    reveal_strlit("emb data ");
    reveal_strlit("document_id ");
    reveal_strlit("document_node_id ");
    reveal_strlit("tokens_used ");
    reveal_strlit("\n");
    let p = print_emb(e);
    let a = "emb data "@;
    let b = print_num(e.data.len());
    let c = print_vec_list(e.data);
    let d = "document_id "@;
    let f = print_str(e.document_id);
    let g = "document_node_id "@;
    let h = print_str(e.document_node_id);
    let k = "tokens_used "@;
    let m = print_num(e.tokens_used);
    let n = "\n"@;
    let o1 = a.len() as int;
    let o2 = o1 + b.len();
    let o3 = o2 + c.len();
    let o4 = o3 + d.len();
    let o5 = o4 + f.len();
    let o6 = o5 + g.len();
    let o7 = o6 + h.len();
    let o8 = o7 + k.len();
    let o9 = o8 + m.len();
    assert(p == a + (b + (c + (d + (f + (g + (h + (k + (m + n))))))))) by {
        assert(a + b + c + d + f + g + h + k + m + n =~= a + (b + (c + (d + (f + (g + (h + (k
            + (m + n)))))))));
    }
    assert(p.subrange(0, o1) =~= a);
    assert(p.subrange(o1, o2) =~= b);
    assert(p.subrange(o2, o3) =~= c);
    assert(p.subrange(o3, o4) =~= d);
    assert(p.subrange(o4, o5) =~= f);
    assert(p.subrange(o5, o6) =~= g);
    assert(p.subrange(o6, o7) =~= h);
    assert(p.subrange(o7, o8) =~= k);
    assert(p.subrange(o8, o9) =~= m);
    assert(p.subrange(o9, p.len() as int) =~= n);
    lemma_sub_slice(s, i, p, 0, a);
    lemma_sub_slice(s, i, p, o1, b);
    lemma_sub_slice(s, i, p, o2, c);
    lemma_sub_slice(s, i, p, o3, d);
    lemma_sub_slice(s, i, p, o4, f);
    lemma_sub_slice(s, i, p, o5, g);
    lemma_sub_slice(s, i, p, o6, h);
    lemma_sub_slice(s, i, p, o7, k);
    lemma_sub_slice(s, i, p, o8, m);
    lemma_sub_slice(s, i, p, o9, n);
    lemma_parse_lit_rt(s, i, a);
    assert(usize::MAX <= u64::MAX);
    lemma_parse_num_rt(s, i + o1, e.data.len());
    lemma_parse_vec_list_rt(s, i + o2, e.data);
    lemma_parse_lit_rt(s, i + o3, d);
    lemma_parse_str_rt(s, i + o4, e.document_id);
    lemma_parse_lit_rt(s, i + o5, g);
    lemma_parse_str_rt(s, i + o6, e.document_node_id);
    lemma_parse_lit_rt(s, i + o7, k);
    lemma_parse_num_rt(s, i + o8, e.tokens_used);
    lemma_parse_lit_rt(s, i + o9, n);
}

proof fn lemma_parse_emb_list_rt(s: Seq<char>, i: int, es: Seq<EmbeddingView>)
    requires
        forall|m: int| 0 <= m < es.len() ==> emb_ok(#[trigger] es[m]),
        0 <= i,
        i + print_emb_list(es).len() <= s.len(),
        s.subrange(i, i + print_emb_list(es).len()) == print_emb_list(es),
    ensures
        parse_emb_list(s, i, es.len()) == Some((es, i + print_emb_list(es).len())),
    decreases es.len(),
{
    if es.len() == 0 {
        assert(es =~= Seq::<EmbeddingView>::empty());
    } else {
        let p = print_emb_list(es);
        let a = print_emb(es.first());
        let b = print_emb_list(es.drop_first());
        assert(p == a + b);
        assert(p.subrange(0, a.len() as int) =~= a);
        assert(p.subrange(a.len() as int, (a.len() + b.len()) as int) =~= b);
        lemma_sub_slice(s, i, p, 0, a);
        lemma_sub_slice(s, i, p, a.len() as int, b);
        assert(emb_ok(es.first()));
        lemma_parse_emb_rt(s, i, es.first());
        assert forall|m: int| 0 <= m < es.drop_first().len() implies emb_ok(
            #[trigger] es.drop_first()[m],
        ) by {
            assert(es.drop_first()[m] == es[m + 1]);
        }
        lemma_parse_emb_list_rt(s, i + a.len(), es.drop_first());
        assert(seq![es.first()] + es.drop_first() =~= es);
    }
}

proof fn lemma_parse_opt_embs_rt(s: Seq<char>, i: int, o: Option<Seq<EmbeddingView>>)
    requires
        match o {
            Some(es) => es.len() <= usize::MAX && forall|m: int|
                0 <= m < es.len() ==> emb_ok(#[trigger] es[m]),
            None => true,
        },
        0 <= i,
        i + print_opt_embs(o).len() <= s.len(),
        s.subrange(i, i + print_opt_embs(o).len()) == print_opt_embs(o),
    ensures
        parse_opt_embs(s, i) == Some((o, i + print_opt_embs(o).len())),
{
    reveal_strlit("none ");
    reveal_strlit("some ");
    reveal_strlit("\n");
    let p = print_opt_embs(o);
    match o {
        None => {
            lemma_parse_lit_rt(s, i, "none "@);
        },
        Some(es) => {
            let a = "some "@;
            let b = print_num(es.len());
            let c = "\n"@;
            let d = print_emb_list(es);
            assert(p == a + (b + (c + d))) by {
                assert(a + b + c + d =~= a + (b + (c + d)));
            }
            assert(p.subrange(0, a.len() as int) =~= a);
            assert(p.subrange(a.len() as int, (a.len() + b.len()) as int) =~= b);
            assert(p.subrange((a.len() + b.len()) as int, (a.len() + b.len() + c.len()) as int) =~= c);
            assert(p.subrange((a.len() + b.len() + c.len()) as int, p.len() as int) =~= d);
            lemma_sub_slice(s, i, p, 0, a);
            lemma_sub_slice(s, i, p, a.len() as int, b);
            lemma_sub_slice(s, i, p, (a.len() + b.len()) as int, c);
            lemma_sub_slice(s, i, p, (a.len() + b.len() + c.len()) as int, d);
            lemma_parse_lit_rt(s, i, a);
            assert(usize::MAX <= u64::MAX);
            lemma_parse_num_rt(s, i + a.len(), es.len());
            lemma_parse_lit_rt(s, i + (a.len() + b.len()) as int, c);
            lemma_parse_emb_list_rt(s, i + (a.len() + b.len() + c.len()) as int, es);
            assert(s.subrange(i, i + 5) =~= a);
            assert(a[0] == 's' && "none "@[0] == 'n');
            assert(parse_lit(s, i, "none "@) is None);
        },
    }
}

proof fn lemma_parse_config_rt(s: Seq<char>, i: int, c: IndexConfig)
    requires
        0 <= i,
        i + print_config(c).len() <= s.len(),
        s.subrange(i, i + print_config(c).len()) == print_config(c),
    ensures
        parse_config(s, i) == Some((c, i + print_config(c).len())),
{
    reveal_strlit("config document_chunk_size ");
    reveal_strlit("verbose ");
    reveal_strlit("none ");
    reveal_strlit("some ");
    reveal_strlit("true ");
    reveal_strlit("false ");
    reveal_strlit("\n");
    let p = print_config(c);
    let a = "config document_chunk_size "@;
    let o = match c.document_chunk_size {
        Some(n) => Some(n as nat),
        None => None,
    };
    let b = print_opt_num(o);
    let v = "verbose "@;
    let d = print_bool(c.verbose);
    let e = "\n"@;
    let o1 = a.len() as int;
    let o2 = o1 + b.len();
    let o3 = o2 + v.len();
    let o4 = o3 + d.len();
    assert(p == a + (b + (v + (d + e)))) by {
        assert(a + b + v + d + e =~= a + (b + (v + (d + e))));
    }
    assert(p.subrange(0, o1) =~= a);
    assert(p.subrange(o1, o2) =~= b);
    assert(p.subrange(o2, o3) =~= v);
    assert(p.subrange(o3, o4) =~= d);
    assert(p.subrange(o4, p.len() as int) =~= e);
    lemma_sub_slice(s, i, p, 0, a);
    lemma_sub_slice(s, i, p, o1, b);
    lemma_sub_slice(s, i, p, o2, v);
    lemma_sub_slice(s, i, p, o3, d);
    lemma_sub_slice(s, i, p, o4, e);
    lemma_parse_lit_rt(s, i, a);
    let bi = i + o1;
    match o {
        None => {
            lemma_parse_lit_rt(s, bi, "none "@);
        },
        Some(n) => {
            let b1 = "some "@;
            let b2 = print_num(n);
            assert(b == b1 + b2);
            assert(b.subrange(0, b1.len() as int) =~= b1);
            assert(b.subrange(b1.len() as int, (b1.len() + b2.len()) as int) =~= b2);
            lemma_sub_slice(s, bi, b, 0, b1);
            lemma_sub_slice(s, bi, b, b1.len() as int, b2);
            lemma_parse_lit_rt(s, bi, b1);
            assert(usize::MAX <= u64::MAX);
            lemma_parse_num_rt(s, bi + b1.len(), n);
            assert(s.subrange(bi, bi + 5) =~= b1);
            assert(b1[0] == 's' && "none "@[0] == 'n');
            assert(parse_lit(s, bi, "none "@) is None);
        },
    }
    lemma_parse_lit_rt(s, i + o2, v);
    let di = i + o3;
    if c.verbose {
        lemma_parse_lit_rt(s, di, "true "@);
    } else {
        lemma_parse_lit_rt(s, di, "false "@);
        assert(s.subrange(di, di + 5) =~= "false "@.subrange(0, 5));
        assert("true "@[0] == 't' && "false "@[0] == 'f');
        assert(parse_lit(s, di, "true "@) is None);
    }
    lemma_parse_lit_rt(s, i + o4, e);
}

/// Printing an index and parsing the text back yields the index again,
/// consuming the whole text: persistence is lossless for every index
/// whose lengths fit in memory.
#[verifier::rlimit(100)]
#[verifier::spinoff_prover]
pub proof fn lemma_print_parse_round_trip(v: IndexView)
    requires
        index_ok(v),
    ensures
        parse_index(print_index(v), 0) == Some((v, print_index(v).len() as int)),
{
    reveal_strlit("endexindex\n");
    reveal_strlit("documents ");
    reveal_strlit("embeddings ");
    reveal_strlit("\n");
    let s = print_index(v);
    let a = "endexindex\n"@;
    let b = "documents "@;
    let c = print_num(v.documents.len());
    let d = "\n"@;
    let e = print_doc_list(v.documents);
    let f = "embeddings "@;
    let g = print_opt_embs(v.embeddings);
    let h = print_config(v.config);
    assert(s == a + (b + (c + (d + (e + (f + (g + h))))))) by {
        assert(a + b + c + d + e + f + g + h =~= a + (b + (c + (d + (e + (f + (g + h)))))));
    }
    assert(s.subrange(0, a.len() as int) =~= a);
    assert(s.subrange(a.len() as int, (a.len() + b.len()) as int) =~= b);
    assert(s.subrange((a.len() + b.len()) as int, (a.len() + b.len() + c.len()) as int) =~= c);
    assert(s.subrange((a.len() + b.len() + c.len()) as int, (a.len() + b.len() + c.len() + d.len()) as int)
        =~= d);
    assert(s.subrange(
        (a.len() + b.len() + c.len() + d.len()) as int,
        (a.len() + b.len() + c.len() + d.len() + e.len()) as int,
    ) =~= e);
    assert(s.subrange(
        (a.len() + b.len() + c.len() + d.len() + e.len()) as int,
        (a.len() + b.len() + c.len() + d.len() + e.len() + f.len()) as int,
    ) =~= f);
    assert(s.subrange(
        (a.len() + b.len() + c.len() + d.len() + e.len() + f.len()) as int,
        (a.len() + b.len() + c.len() + d.len() + e.len() + f.len() + g.len()) as int,
    ) =~= g);
    assert(s.subrange((a.len() + b.len() + c.len() + d.len() + e.len() + f.len() + g.len()) as int,
        s.len() as int) =~= h);
    lemma_parse_lit_rt(s, 0, a);
    lemma_parse_lit_rt(s, a.len() as int, b);
    assert(usize::MAX <= u64::MAX);
    lemma_parse_num_rt(s, (a.len() + b.len()) as int, v.documents.len());
    lemma_parse_lit_rt(s, (a.len() + b.len() + c.len()) as int, d);
    lemma_parse_doc_list_rt(s, (a.len() + b.len() + c.len() + d.len()) as int, v.documents);
    lemma_parse_lit_rt(s, (a.len() + b.len() + c.len() + d.len() + e.len()) as int, f);
    lemma_parse_opt_embs_rt(
        s,
        (a.len() + b.len() + c.len() + d.len() + e.len() + f.len()) as int,
        v.embeddings,
    );
    lemma_parse_config_rt(
        s,
        (a.len() + b.len() + c.len() + d.len() + e.len() + f.len() + g.len()) as int,
        v.config,
    );
}

fn parse_node_exec(s: &str, i: usize) -> (r: Option<(DocumentNode, usize)>)
    requires
        i <= s@.len(),
    ensures
        match r {
            Some(p) => parse_node(s@, i as int) matches Some(q) && q.0 == p.0@ && q.1 == p.1
                as int && p.1 <= s@.len(),
            None => parse_node(s@, i as int) is None,
        },
{
    match parse_lit_exec(s, i, "node text ") {
        Some(j0) => match parse_str_exec(s, j0) {
            Some((text, j1)) => match parse_lit_exec(s, j1, "id ") {
                Some(j2) => match parse_str_exec(s, j2) {
                    Some((id, j3)) => Some((DocumentNode { text, id }, j3)),
                    None => None,
                },
                None => None,
            },
            None => None,
        },
        None => None,
    }
}

fn parse_node_list_exec(s: &str, i: usize, count: usize) -> (r: Option<(
    Vec<DocumentNode>,
    usize,
)>)
    requires
        i <= s@.len(),
    ensures
        match r {
            Some(p) => parse_node_list(s@, i as int, count as nat) matches Some(q) && q.0
                == p.0@.map_values(|n: DocumentNode| n@) && q.1 == p.1 as int && p.1 <= s@.len(),
            None => parse_node_list(s@, i as int, count as nat) is None,
        },
{
    let mut acc: Vec<DocumentNode> = Vec::new();
    let mut cur = i;
    let mut k: usize = 0;
    proof {
        assert(acc@.map_values(|n: DocumentNode| n@) =~= Seq::<NodeView>::empty());
    }
    while k < count
        invariant
            0 <= k <= count,
            cur <= s@.len(),
            acc@.len() == k,
            match parse_node_list(s@, cur as int, (count - k) as nat) {
                Some((rest, j)) => parse_node_list(s@, i as int, count as nat) == Some(
                    (acc@.map_values(|n: DocumentNode| n@) + rest, j),
                ),
                None => parse_node_list(s@, i as int, count as nat) is None,
            },
        decreases count - k,
    {
        let ghost before = acc@.map_values(|n: DocumentNode| n@);
        match parse_node_exec(s, cur) {
            None => {
                return None;
            },
            Some((n, j2)) => {
                proof {
                    let step = parse_node(s@, cur as int)->Some_0;
                    match parse_node_list(s@, j2 as int, (count - k - 1) as nat) {
                        Some((rest, jj)) => {
                            assert(parse_node_list(s@, cur as int, (count - k) as nat)
                                == Some((seq![n@] + rest, jj)));
                            assert(before + (seq![n@] + rest) =~= before.push(n@) + rest);
                        },
                        None => {
                            assert(parse_node_list(s@, cur as int, (count - k) as nat)
                                is None);
                        },
                    }
                }
                acc.push(n);
                proof {
                    assert(acc@.map_values(|x: DocumentNode| x@) =~= before.push(n@));
                }
                cur = j2;
            },
        }
        k = k + 1;
    }
    proof {
        assert(parse_node_list(s@, cur as int, 0) == Some(
            (Seq::<NodeView>::empty(), cur as int),
        ));
        assert(acc@.map_values(|n: DocumentNode| n@) + Seq::<NodeView>::empty() =~= acc@
            .map_values(|n: DocumentNode| n@));
    }
    Some((acc, cur))
}

fn parse_opt_nodes_exec(s: &str, i: usize) -> (r: Option<(Option<Vec<DocumentNode>>, usize)>)
    requires
        i <= s@.len(),
    ensures
        match r {
            Some(p) => parse_opt_nodes(s@, i as int) matches Some(q) && q.0 == (match p.0 {
                Some(ns) => Some(ns@.map_values(|n: DocumentNode| n@)),
                None => None,
            }) && q.1 == p.1 as int && p.1 <= s@.len(),
            None => parse_opt_nodes(s@, i as int) is None,
        },
{
    match parse_lit_exec(s, i, "nodes none ") {
        Some(j) => Some((None, j)),
        None => match parse_lit_exec(s, i, "nodes some ") {
            Some(j) => match parse_num_exec(s, j) {
                Some((count, j2)) => {
                    if count <= usize::MAX as u64 {
                        match parse_node_list_exec(s, j2, count as usize) {
                            Some((ns, j3)) => Some((Some(ns), j3)),
                            None => None,
                        }
                    } else {
                        None
                    }
                },
                None => None,
            },
            None => None,
        },
    }
}

fn parse_doc_exec(s: &str, i: usize) -> (r: Option<(Document, usize)>)
    requires
        i <= s@.len(),
    ensures
        match r {
            Some(p) => parse_doc(s@, i as int) matches Some(q) && q.0 == p.0@ && q.1 == p.1
                as int && p.1 <= s@.len(),
            None => parse_doc(s@, i as int) is None,
        },
{
    match parse_lit_exec(s, i, "doc text ") {
        None => None,
        Some(j0) => match parse_str_exec(s, j0) {
            None => None,
            Some((text, j1)) => match parse_lit_exec(s, j1, "id ") {
                None => None,
                Some(j2) => match parse_str_exec(s, j2) {
                    None => None,
                    Some((id, j3)) => match parse_opt_nodes_exec(s, j3) {
                        None => None,
                        Some((nodes, j4)) => match parse_lit_exec(s, j4, "\n") {
                            None => None,
                            Some(j5) => Some((Document { text, id, nodes }, j5)),
                        },
                    },
                },
            },
        },
    }
}

fn parse_vec_exec(s: &str, i: usize) -> (r: Option<(Vec<i64>, usize)>)
    requires
        i <= s@.len(),
    ensures
        match r {
            Some(p) => parse_vec(s@, i as int) matches Some(q) && q.0 == ints(p.0@) && q.1
                == p.1 as int && p.1 <= s@.len(),
            None => parse_vec(s@, i as int) is None,
        },
{
    match parse_num_exec(s, i) {
        None => None,
        Some((count, j)) => {
            if count > usize::MAX as u64 {
                return None;
            }
            let c = count as usize;
            let mut acc: Vec<i64> = Vec::new();
            let mut cur = j;
            let mut k: usize = 0;
            proof {
                assert(ints(acc@) =~= Seq::<int>::empty());
            }
            while k < c
                invariant
                    0 <= k <= c,
                    cur <= s@.len(),
                    parse_num(s@, i as int) == Some((c as nat, j as int)),
                    c <= usize::MAX,
                    match parse_comp_list(s@, cur as int, (c - k) as nat) {
                        Some((rest, jj)) => parse_comp_list(s@, j as int, c as nat) == Some(
                            (ints(acc@) + rest, jj),
                        ),
                        None => parse_comp_list(s@, j as int, c as nat) is None,
                    },
                decreases c - k,
            {
                let ghost before = ints(acc@);
                match parse_int_exec(s, cur) {
                    None => {
                        return None;
                    },
                    Some((x, j2)) => {
                        proof {
                            match parse_comp_list(s@, j2 as int, (c - k - 1) as nat) {
                                Some((rest, jj)) => {
                                    assert(parse_comp_list(s@, cur as int, (c - k) as nat)
                                        == Some((seq![x as int] + rest, jj)));
                                    assert(before + (seq![x as int] + rest) =~= before.push(
                                        x as int,
                                    ) + rest);
                                },
                                None => {
                                    assert(parse_comp_list(s@, cur as int, (c - k) as nat)
                                        is None);
                                },
                            }
                        }
                        acc.push(x);
                        proof {
                            assert(ints(acc@) =~= before.push(x as int));
                        }
                        cur = j2;
                    },
                }
                k = k + 1;
            }
            proof {
                assert(parse_comp_list(s@, cur as int, 0) == Some(
                    (Seq::<int>::empty(), cur as int),
                ));
                assert(ints(acc@) + Seq::<int>::empty() =~= ints(acc@));
            }
            Some((acc, cur))
        },
    }
}

fn parse_emb_exec(s: &str, i: usize) -> (r: Option<(Embedding, usize)>)
    requires
        i <= s@.len(),
    ensures
        match r {
            Some(p) => parse_emb(s@, i as int) matches Some(q) && q.0 == p.0@ && q.1 == p.1
                as int && p.1 <= s@.len(),
            None => parse_emb(s@, i as int) is None,
        },
{
    let j0 = match parse_lit_exec(s, i, "emb data ") {
        None => {
            return None;
        },
        Some(j) => j,
    };
    let (count, j1) = match parse_num_exec(s, j0) {
        None => {
            return None;
        },
        Some(p) => p,
    };
    if count > usize::MAX as u64 {
        return None;
    }
    let c = count as usize;
    let mut data: Vec<Vec<i64>> = Vec::new();
    let mut cur = j1;
    let mut k: usize = 0;
    proof {
        assert(data@.map_values(|v: Vec<i64>| ints(v@)) =~= Seq::<Seq<int>>::empty());
    }
    while k < c
        invariant
            0 <= k <= c,
            cur <= s@.len(),
            i <= s@.len(),
            parse_lit(s@, i as int, "emb data "@) == Some(j0 as int),
            parse_num(s@, j0 as int) == Some((c as nat, j1 as int)),
            c <= usize::MAX,
            match parse_vec_list(s@, cur as int, (c - k) as nat) {
                Some((rest, jj)) => parse_vec_list(s@, j1 as int, c as nat) == Some(
                    (data@.map_values(|v: Vec<i64>| ints(v@)) + rest, jj),
                ),
                None => parse_vec_list(s@, j1 as int, c as nat) is None,
            },
        decreases c - k,
    {
        let ghost before = data@.map_values(|v: Vec<i64>| ints(v@));
        match parse_vec_exec(s, cur) {
            None => {
                return None;
            },
            Some((v, j2)) => {
                proof {
                    match parse_vec_list(s@, j2 as int, (c - k - 1) as nat) {
                        Some((rest, jj)) => {
                            assert(parse_vec_list(s@, cur as int, (c - k) as nat) == Some(
                                (seq![ints(v@)] + rest, jj),
                            ));
                            assert(before + (seq![ints(v@)] + rest) =~= before.push(ints(v@))
                                + rest);
                        },
                        None => {},
                    }
                }
                data.push(v);
                proof {
                    assert(data@.map_values(|x: Vec<i64>| ints(x@)) =~= before.push(ints(
                        data@[data@.len() - 1]@,
                    )));
                }
                cur = j2;
            },
        }
        k = k + 1;
    }
    proof {
        assert(parse_vec_list(s@, cur as int, 0) == Some(
            (Seq::<Seq<int>>::empty(), cur as int),
        ));
        assert(data@.map_values(|v: Vec<i64>| ints(v@)) + Seq::<Seq<int>>::empty() =~= data@
            .map_values(|v: Vec<i64>| ints(v@)));
    }
    let j3 = match parse_lit_exec(s, cur, "document_id ") {
        None => {
            return None;
        },
        Some(j) => j,
    };
    let (document_id, j4) = match parse_str_exec(s, j3) {
        None => {
            return None;
        },
        Some(p) => p,
    };
    let j5 = match parse_lit_exec(s, j4, "document_node_id ") {
        None => {
            return None;
        },
        Some(j) => j,
    };
    let (document_node_id, j6) = match parse_str_exec(s, j5) {
        None => {
            return None;
        },
        Some(p) => p,
    };
    let j7 = match parse_lit_exec(s, j6, "tokens_used ") {
        None => {
            return None;
        },
        Some(j) => j,
    };
    let (tokens_used, j8) = match parse_num_exec(s, j7) {
        None => {
            return None;
        },
        Some(p) => p,
    };
    match parse_lit_exec(s, j8, "\n") {
        None => None,
        Some(j9) => Some(
            (Embedding { data, tokens_used, document_id, document_node_id }, j9),
        ),
    }
}

fn parse_config_exec(s: &str, i: usize) -> (r: Option<(IndexConfig, usize)>)
    requires
        i <= s@.len(),
    ensures
        match r {
            Some(p) => parse_config(s@, i as int) == Some((p.0, p.1 as int)) && p.1 <= s@.len(),
            None => parse_config(s@, i as int) is None,
        },
{
    match parse_lit_exec(s, i, "config document_chunk_size ") {
        None => None,
        Some(j0) => {
            let (o, j1) = match parse_lit_exec(s, j0, "none ") {
                Some(j) => (None, j),
                None => match parse_lit_exec(s, j0, "some ") {
                    Some(j) => match parse_num_exec(s, j) {
                        Some((v, j2)) => {
                            if v > usize::MAX as u64 {
                                return None;
                            }
                            (Some(v as usize), j2)
                        },
                        None => {
                            return None;
                        },
                    },
                    None => {
                        return None;
                    },
                },
            };
            let j1v = match parse_lit_exec(s, j1, "verbose ") {
                Some(j) => j,
                None => {
                    return None;
                },
            };
            let (verbose, j2) = match parse_lit_exec(s, j1v, "true ") {
                Some(j) => (true, j),
                None => match parse_lit_exec(s, j1v, "false ") {
                    Some(j) => (false, j),
                    None => {
                        return None;
                    },
                },
            };
            match parse_lit_exec(s, j2, "\n") {
                None => None,
                Some(j3) => Some((IndexConfig { document_chunk_size: o, verbose }, j3)),
            }
        },
    }
}

impl VectorIndex {
    /// Parses a rendered index back; anything that does not match the
    /// schema exactly, or leaves trailing text, is a corrupt index.
    pub fn decode(s: &str) -> (r: Result<VectorIndex, IndexError>)
        ensures
            match r {
                Ok(v) => parse_index(s@, 0) == Some((v@, s@.len() as int)),
                Err(e) => e == IndexError::CorruptIndex && (match parse_index(s@, 0) {
                    Some((v, j)) => j != s@.len(),
                    None => true,
                }),
            },
{
        let n = s.unicode_len();
        let j0 = match parse_lit_exec(s, 0, "endexindex\n") {
            None => {
                return Err(IndexError::CorruptIndex);
            },
            Some(j) => j,
        };
        let j1 = match parse_lit_exec(s, j0, "documents ") {
            None => {
                return Err(IndexError::CorruptIndex);
            },
            Some(j) => j,
        };
        let (count, j2) = match parse_num_exec(s, j1) {
            None => {
                return Err(IndexError::CorruptIndex);
            },
            Some(p) => p,
        };
        if count > usize::MAX as u64 {
            return Err(IndexError::CorruptIndex);
        }
        let c = count as usize;
        let j3 = match parse_lit_exec(s, j2, "\n") {
            None => {
                return Err(IndexError::CorruptIndex);
            },
            Some(j) => j,
        };
        let mut documents: Vec<Document> = Vec::new();
        let mut cur = j3;
        let mut k: usize = 0;
        proof {
            assert(documents@.map_values(|d: Document| d@) =~= Seq::<DocView>::empty());
        }
        while k < c
            invariant
                0 <= k <= c,
                cur <= s@.len(),
                parse_lit(s@, 0, "endexindex\n"@) == Some(j0 as int),
                parse_lit(s@, j0 as int, "documents "@) == Some(j1 as int),
                parse_num(s@, j1 as int) == Some((c as nat, j2 as int)),
                c <= usize::MAX,
                parse_lit(s@, j2 as int, "\n"@) == Some(j3 as int),
                match parse_doc_list(s@, cur as int, (c - k) as nat) {
                    Some((rest, jj)) => parse_doc_list(s@, j3 as int, c as nat) == Some(
                        (documents@.map_values(|d: Document| d@) + rest, jj),
                    ),
                    None => parse_doc_list(s@, j3 as int, c as nat) is None,
                },
            decreases c - k,
        {
            let ghost before = documents@.map_values(|d: Document| d@);
            match parse_doc_exec(s, cur) {
                None => {
                    return Err(IndexError::CorruptIndex);
                },
                Some((d, j4)) => {
                    proof {
                        match parse_doc_list(s@, j4 as int, (c - k - 1) as nat) {
                            Some((rest, jj)) => {
                                assert(parse_doc_list(s@, cur as int, (c - k) as nat) == Some(
                                    (seq![d@] + rest, jj),
                                ));
                                assert(before + (seq![d@] + rest) =~= before.push(d@) + rest);
                            },
                            None => {},
                        }
                    }
                    documents.push(d);
                    proof {
                        assert(documents@.map_values(|x: Document| x@) =~= before.push(
                            documents@[documents@.len() - 1]@,
                        ));
                    }
                    cur = j4;
                },
            }
            k = k + 1;
        }
        proof {
            assert(parse_doc_list(s@, cur as int, 0) == Some(
                (Seq::<DocView>::empty(), cur as int),
            ));
            assert(documents@.map_values(|d: Document| d@) + Seq::<DocView>::empty()
                =~= documents@.map_values(|d: Document| d@));
        }
        let j5 = match parse_lit_exec(s, cur, "embeddings ") {
            None => {
                return Err(IndexError::CorruptIndex);
            },
            Some(j) => j,
        };
        let (embeddings, j6): (Option<Vec<Embedding>>, usize) = match parse_lit_exec(
            s,
            j5,
            "none ",
        ) {
            Some(j) => (None, j),
            None => {
                let j = match parse_lit_exec(s, j5, "some ") {
                    None => {
                        return Err(IndexError::CorruptIndex);
                    },
                    Some(j) => j,
                };
                let (ecount, ja) = match parse_num_exec(s, j) {
                    None => {
                        return Err(IndexError::CorruptIndex);
                    },
                    Some(p) => p,
                };
                if ecount > usize::MAX as u64 {
                    return Err(IndexError::CorruptIndex);
                }
                let ec = ecount as usize;
                let jb = match parse_lit_exec(s, ja, "\n") {
                    None => {
                        return Err(IndexError::CorruptIndex);
                    },
                    Some(j) => j,
                };
                let mut es: Vec<Embedding> = Vec::new();
                let mut ecur = jb;
                let mut w: usize = 0;
                proof {
                    assert(es@.map_values(|e: Embedding| e@) =~= Seq::<EmbeddingView>::empty());
                }
                while w < ec
                    invariant
                        0 <= w <= ec,
                        ecur <= s@.len(),
                        parse_lit(s@, 0, "endexindex\n"@) == Some(j0 as int),
                        parse_lit(s@, j0 as int, "documents "@) == Some(j1 as int),
                        parse_num(s@, j1 as int) == Some((c as nat, j2 as int)),
                        c <= usize::MAX,
                        parse_lit(s@, j2 as int, "\n"@) == Some(j3 as int),
                        parse_doc_list(s@, j3 as int, c as nat) == Some(
                            (documents@.map_values(|d: Document| d@), cur as int),
                        ),
                        parse_lit(s@, cur as int, "embeddings "@) == Some(j5 as int),
                        parse_lit(s@, j5 as int, "none "@) is None,
                        parse_lit(s@, j5 as int, "some "@) == Some(j as int),
                        parse_num(s@, j as int) == Some((ec as nat, ja as int)),
                        ec <= usize::MAX,
                        parse_lit(s@, ja as int, "\n"@) == Some(jb as int),
                        match parse_emb_list(s@, ecur as int, (ec - w) as nat) {
                            Some((rest, jj)) => parse_emb_list(s@, jb as int, ec as nat)
                                == Some((es@.map_values(|e: Embedding| e@) + rest, jj)),
                            None => parse_emb_list(s@, jb as int, ec as nat) is None,
                        },
                    decreases ec - w,
                {
                    let ghost before = es@.map_values(|e: Embedding| e@);
                    match parse_emb_exec(s, ecur) {
                        None => {
                            return Err(IndexError::CorruptIndex);
                        },
                        Some((e, jc)) => {
                            proof {
                                match parse_emb_list(s@, jc as int, (ec - w - 1) as nat) {
                                    Some((rest, jj)) => {
                                        assert(parse_emb_list(s@, ecur as int, (ec - w) as nat)
                                            == Some((seq![e@] + rest, jj)));
                                        assert(before + (seq![e@] + rest) =~= before.push(e@)
                                            + rest);
                                    },
                                    None => {},
                                }
                            }
                            es.push(e);
                            proof {
                                assert(es@.map_values(|x: Embedding| x@) =~= before.push(
                                    es@[es@.len() - 1]@,
                                ));
                            }
                            ecur = jc;
                        },
                    }
                    w = w + 1;
                }
                proof {
                    assert(parse_emb_list(s@, ecur as int, 0) == Some(
                        (Seq::<EmbeddingView>::empty(), ecur as int),
                    ));
                    assert(es@.map_values(|e: Embedding| e@) + Seq::<EmbeddingView>::empty()
                        =~= es@.map_values(|e: Embedding| e@));
                }
                (Some(es), ecur)
            },
        };
        let (config, j7) = match parse_config_exec(s, j6) {
            None => {
                return Err(IndexError::CorruptIndex);
            },
            Some(p) => p,
        };
        if j7 != n {
            return Err(IndexError::CorruptIndex);
        }
        Ok(VectorIndex { documents, embeddings, config })
    }
}

} // verus!
