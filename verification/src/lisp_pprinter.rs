//! Pretty printer for parsed forms.
//!
//! `style_lisp_form` turns a form into a flat stream of print tokens,
//! fitted to a target width: styles are assigned from the operator at the
//! head of each list, the token tree is measured, and as long as a line
//! is too wide the next unstyled list (in pre-order) is upgraded to the
//! `Standard` style, which moves its later children onto their own lines.
//! Delimiter and atom tokens keep the coordinate of the source node they
//! render, which is what lets a client highlight source positions.

use crate::lisp_reader::clone_coord;
use crate::lisp_reader::fview;
use crate::lisp_reader::fviews;
use crate::lisp_reader::lemma_fviews_index;
use crate::lisp_reader::lemma_fviews_len;
use crate::lisp_reader::lemma_fviews_push;
use crate::lisp_reader::fheight;
use crate::lisp_reader::sheight;
use crate::lisp_reader::lemma_sheight_index;
use crate::lisp_reader::FormV;
use crate::lisp_reader::PrintStyle;
use crate::lisp_reader::PrintableLispForm;
use vstd::prelude::*;

verus! {

/// One print token. `PrintTokensVec` nests a generated group; the
/// streams handed out by `style_lisp_form` are flat (no nesting).
#[derive(Debug, PartialEq)]
pub enum PrintToken {
    String(String),
    BlockOpen { val: String, coord: Vec<u16> },
    BlockClose { val: String, coord: Vec<u16> },
    Atomic { val: String, coord: Vec<u16> },
    Space,
    Newline,
    PrintTokensVec(Vec<PrintToken>),
}

/// Mathematical model of a print token.
#[verifier::ext_equal]
pub enum TokenV {
    StrTok { text: Seq<char> },
    BlockOpen { val: Seq<char>, coord: Seq<u16> },
    BlockClose { val: Seq<char>, coord: Seq<u16> },
    Atomic { val: Seq<char>, coord: Seq<u16> },
    Space,
    Newline,
    TokensVec { toks: Seq<TokenV> },
}

/// The model of a print token.
pub open spec fn tview(t: PrintToken) -> TokenV
    decreases t,
{
    match t {
        PrintToken::String(s) => TokenV::StrTok { text: s@ },
        PrintToken::BlockOpen { val, coord } => TokenV::BlockOpen { val: val@, coord: coord@ },
        PrintToken::BlockClose { val, coord } => TokenV::BlockClose { val: val@, coord: coord@ },
        PrintToken::Atomic { val, coord } => TokenV::Atomic { val: val@, coord: coord@ },
        PrintToken::Space => TokenV::Space,
        PrintToken::Newline => TokenV::Newline,
        PrintToken::PrintTokensVec(v) => TokenV::TokensVec { toks: tviews(v@) },
    }
}

/// The models of a sequence of print tokens.
pub open spec fn tviews(s: Seq<PrintToken>) -> Seq<TokenV>
    decreases s,
{
    if s.len() == 0 {
        Seq::empty()
    } else {
        seq![tview(s[0])] + tviews(s.drop_first())
    }
}

/// `tviews` maps `tview` over the sequence, element by element.
pub broadcast proof fn lemma_tviews_len(s: Seq<PrintToken>)
    ensures
        (#[trigger] tviews(s)).len() == s.len(),
    decreases s,
{
    if s.len() > 0 {
        lemma_tviews_len(s.drop_first());
    }
}

/// The model of the `i`th token is the `i`th model.
pub broadcast proof fn lemma_tviews_index(s: Seq<PrintToken>, i: int)
    requires
        0 <= i < s.len(),
    ensures
        #[trigger] tviews(s)[i] == tview(s[i]),
    decreases s,
{
    lemma_tviews_len(s);
    if i > 0 {
        lemma_tviews_index(s.drop_first(), i - 1);
    }
}

/// Appending a token to a sequence appends its model.
pub broadcast proof fn lemma_tviews_push(s: Seq<PrintToken>, t: PrintToken)
    ensures
        #[trigger] tviews(s.push(t)) == tviews(s).push(tview(t)),
{
    broadcast use lemma_tviews_len, lemma_tviews_index;

    assert forall|i: int| 0 <= i < s.len() + 1 implies tviews(s.push(t))[i] == tviews(s).push(
        tview(t),
    )[i] by {
        if i < s.len() {
            assert(s.push(t)[i] == s[i]);
        } else {
            assert(s.push(t)[i] == t);
        }
    }
    assert(tviews(s.push(t)) =~= tviews(s).push(tview(t)));
}

/// Height of a token model: how deeply groups are nested below it.
pub open spec fn theight(t: TokenV) -> nat
    decreases t,
{
    match t {
        TokenV::TokensVec { toks } => tsheight(toks) + 1,
        _ => 0,
    }
}

/// Summed height of a sequence of token models.
pub open spec fn tsheight(s: Seq<TokenV>) -> nat
    decreases s,
{
    if s.len() == 0 {
        0
    } else {
        theight(s[0]) + tsheight(s.drop_first()) + 1
    }
}

/// Every element of a sequence sits strictly below the whole sequence.
pub proof fn lemma_tsheight_index(s: Seq<TokenV>, i: int)
    requires
        0 <= i < s.len(),
    ensures
        theight(s[i]) < tsheight(s),
    decreases s,
{
    if i > 0 {
        lemma_tsheight_index(s.drop_first(), i - 1);
    }
}

/// A flat token: not a nested group.
pub open spec fn is_flat(t: TokenV) -> bool {
    !(t is TokensVec)
}

/// A flat token stream: no nested groups.
pub open spec fn all_flat(s: Seq<TokenV>) -> bool {
    forall|i: int| 0 <= i < s.len() ==> is_flat(#[trigger] s[i])
}

fn clone_token_vec(v: &Vec<PrintToken>) -> (res: Vec<PrintToken>)
    ensures
        tviews(res@) == tviews(v@),
    decreases *v,
{
    let mut res: Vec<PrintToken> = Vec::new();
    let mut i: usize = 0;
    #[verifier::loop_isolation(false)]
    while i < v.len()
        invariant
            i <= v@.len(),
            res@.len() == i,
            forall|j: int| 0 <= j < i ==> tview(#[trigger] res@[j]) == tview(v@[j]),
        decreases v@.len() - i,
    {
        res.push(v[i].clone());
        i = i + 1;
    }
    proof {
        broadcast use lemma_tviews_len, lemma_tviews_index;

        assert(tviews(res@) =~= tviews(v@));
    }
    res
}

impl Clone for PrintToken {
    /// A clone has the same model as the original.
    fn clone(&self) -> (res: Self)
        ensures
            tview(res) == tview(*self),
        decreases *self,
    {
        match self {
            PrintToken::String(s) => PrintToken::String(s.clone()),
            PrintToken::BlockOpen { val, coord } => PrintToken::BlockOpen {
                val: val.clone(),
                coord: clone_coord(coord),
            },
            PrintToken::BlockClose { val, coord } => PrintToken::BlockClose {
                val: val.clone(),
                coord: clone_coord(coord),
            },
            PrintToken::Atomic { val, coord } => PrintToken::Atomic {
                val: val.clone(),
                coord: clone_coord(coord),
            },
            PrintToken::Space => PrintToken::Space,
            PrintToken::Newline => PrintToken::Newline,
            PrintToken::PrintTokensVec(v) => PrintToken::PrintTokensVec(clone_token_vec(v)),
        }
    }
}

/// Indentation between layout lines.
pub open spec fn spec_indented_nl(width: nat) -> Seq<TokenV> {
    Seq::new(width + 1, |i: int| if i == 0 {
        TokenV::Newline
    } else {
        TokenV::Space
    })
}

/// A newline followed by `width` spaces.
pub fn indented_nl(width: usize) -> (r: Vec<PrintToken>)
    ensures
        tviews(r@) == spec_indented_nl(width as nat),
{
    broadcast use lemma_tviews_push;

    let mut v: Vec<PrintToken> = Vec::new();
    v.push(PrintToken::Newline);
    let mut i: usize = 0;
    while i < width
        invariant
            i <= width,
            tviews(v@) == spec_indented_nl(width as nat).take(i + 1),
        decreases width - i,
    {
        let ghost old_v = v@;
        v.push(PrintToken::Space);
        proof {
            lemma_tviews_push(old_v, PrintToken::Space);
            assert(spec_indented_nl(width as nat).take(i + 2) =~= spec_indented_nl(
                width as nat,
            ).take(i + 1).push(TokenV::Space));
        }
        i = i + 1;
    }
    proof {
        assert(spec_indented_nl(width as nat).take(width + 1 as int) =~= spec_indented_nl(
            width as nat,
        ));
    }
    v
}

/// The tokens of `s` with `sep` between neighbours.
pub open spec fn spec_join(sep: TokenV, s: Seq<TokenV>) -> Seq<TokenV>
    decreases s,
{
    if s.len() == 0 {
        Seq::empty()
    } else if s.len() == 1 {
        seq![s[0]]
    } else {
        seq![s[0], sep] + spec_join(sep, s.drop_first())
    }
}

/// Appending an element appends a separator and the element.
pub proof fn lemma_spec_join_push(sep: TokenV, s: Seq<TokenV>, x: TokenV)
    ensures
        spec_join(sep, s.push(x)) == if s.len() == 0 {
            seq![x]
        } else {
            spec_join(sep, s) + seq![sep, x]
        },
    decreases s,
{
    if s.len() == 0 {
        assert(s.push(x) =~= seq![x]);
    } else {
        assert(s.push(x).drop_first() =~= s.drop_first().push(x));
        lemma_spec_join_push(sep, s.drop_first(), x);
        assert(s.push(x)[0] == s[0]);
        if s.len() == 1 {
            assert(spec_join(sep, s.push(x)) =~= spec_join(sep, s) + seq![sep, x]);
        } else {
            assert(spec_join(sep, s.push(x)) =~= spec_join(sep, s) + seq![sep, x]);
        }
    }
}

/// The tokens of `s` with the whole sequence `sep` between neighbours.
pub open spec fn spec_join_coll(sep: Seq<TokenV>, s: Seq<TokenV>) -> Seq<TokenV>
    decreases s,
{
    if s.len() == 0 {
        Seq::empty()
    } else if s.len() == 1 {
        seq![s[0]]
    } else {
        seq![s[0]] + sep + spec_join_coll(sep, s.drop_first())
    }
}

/// Appending an element appends the separator sequence and the element.
pub proof fn lemma_spec_join_coll_push(sep: Seq<TokenV>, s: Seq<TokenV>, x: TokenV)
    ensures
        spec_join_coll(sep, s.push(x)) == if s.len() == 0 {
            seq![x]
        } else {
            spec_join_coll(sep, s) + sep + seq![x]
        },
    decreases s,
{
    if s.len() == 0 {
        assert(s.push(x) =~= seq![x]);
    } else {
        assert(s.push(x).drop_first() =~= s.drop_first().push(x));
        lemma_spec_join_coll_push(sep, s.drop_first(), x);
        assert(s.push(x)[0] == s[0]);
        assert(spec_join_coll(sep, s.push(x)) =~= spec_join_coll(sep, s) + sep + seq![x]);
    }
}

/// `tokens` with one `pt` between neighbours.
pub fn join(pt: PrintToken, tokens: Vec<PrintToken>) -> (r: Vec<PrintToken>)
    ensures
        tviews(r@) == spec_join(tview(pt), tviews(tokens@)),
{
    let mut r: Vec<PrintToken> = Vec::new();
    let mut i: usize = 0;
    #[verifier::loop_isolation(false)]
    while i < tokens.len()
        invariant
            i <= tokens@.len(),
            tviews(r@) == spec_join(tview(pt), tviews(tokens@).take(i as int)),
        decreases tokens@.len() - i,
    {
        proof {
            lemma_tviews_len(tokens@);
            lemma_tviews_index(tokens@, i as int);
        }
        if i > 0 {
            let ghost mid = r@;
            let sep = pt.clone();
            let ghost sepg = sep;
            r.push(sep);
            proof {
                lemma_tviews_push(mid, sepg);
            }
        }
        let ghost pre = r@;
        let elem = tokens[i].clone();
        let ghost elemg = elem;
        r.push(elem);
        proof {
            let ts = tviews(tokens@);
            lemma_tviews_push(pre, elemg);
            assert(tview(elemg) == ts[i as int]);
            assert(ts.take(i + 1) =~= ts.take(i as int).push(ts[i as int]));
            lemma_spec_join_push(tview(pt), ts.take(i as int), ts[i as int]);
            if i > 0 {
                assert(tviews(r@) =~= spec_join(tview(pt), ts.take(i as int)) + seq![
                    tview(pt),
                    ts[i as int],
                ]);
            } else {
                assert(tviews(r@) =~= seq![ts[0]]);
            }
        }
        i = i + 1;
    }
    proof {
        lemma_tviews_len(tokens@);
        assert(tviews(tokens@).take(tokens@.len() as int) =~= tviews(tokens@));
    }
    r
}

/// `tokens` with the whole sequence `v` between neighbours.
pub fn join_coll(v: Vec<PrintToken>, tokens: Vec<PrintToken>) -> (r: Vec<PrintToken>)
    ensures
        tviews(r@) == spec_join_coll(tviews(v@), tviews(tokens@)),
{
    let mut r: Vec<PrintToken> = Vec::new();
    let mut i: usize = 0;
    #[verifier::loop_isolation(false)]
    while i < tokens.len()
        invariant
            i <= tokens@.len(),
            tviews(r@) == spec_join_coll(tviews(v@), tviews(tokens@).take(i as int)),
        decreases tokens@.len() - i,
    {
        proof {
            lemma_tviews_len(tokens@);
            lemma_tviews_index(tokens@, i as int);
        }
        if i > 0 {
            let mut j: usize = 0;
            #[verifier::loop_isolation(false)]
            while j < v.len()
                invariant
                    j <= v@.len(),
                    tviews(r@) == spec_join_coll(tviews(v@), tviews(tokens@).take(i as int))
                        + tviews(v@).take(j as int),
                decreases v@.len() - j,
            {
                let ghost pre = r@;
                let sep = v[j].clone();
                let ghost sepg = sep;
                r.push(sep);
                proof {
                    lemma_tviews_len(v@);
                    lemma_tviews_index(v@, j as int);
                    lemma_tviews_push(pre, sepg);
                    assert(tview(sepg) == tviews(v@)[j as int]);
                    assert(tviews(v@).take(j + 1) =~= tviews(v@).take(j as int).push(
                        tviews(v@)[j as int],
                    ));
                    assert(tviews(r@) =~= spec_join_coll(tviews(v@), tviews(tokens@).take(i as int))
                        + tviews(v@).take(j + 1));
                }
                j = j + 1;
            }
            proof {
                lemma_tviews_len(v@);
                assert(tviews(v@).take(v@.len() as int) =~= tviews(v@));
            }
        }
        let ghost pre = r@;
        let elem = tokens[i].clone();
        let ghost elemg = elem;
        r.push(elem);
        proof {
            let ts = tviews(tokens@);
            lemma_tviews_push(pre, elemg);
            assert(tview(elemg) == ts[i as int]);
            assert(ts.take(i + 1) =~= ts.take(i as int).push(ts[i as int]));
            lemma_spec_join_coll_push(tviews(v@), ts.take(i as int), ts[i as int]);
            if i > 0 {
                assert(tviews(r@) =~= spec_join_coll(tviews(v@), ts.take(i as int)) + tviews(v@)
                    + seq![ts[i as int]]);
            } else {
                assert(tviews(r@) =~= seq![ts[0]]);
            }
        }
        i = i + 1;
    }
    proof {
        lemma_tviews_len(tokens@);
        assert(tviews(tokens@).take(tokens@.len() as int) =~= tviews(tokens@));
    }
    r
}

/// One token, flattened: a nested group becomes its flattened contents.
pub open spec fn spec_flatten_one(t: TokenV) -> Seq<TokenV>
    decreases theight(t),
{
    match t {
        TokenV::TokensVec { toks } => spec_flatten(toks),
        _ => seq![t],
    }
}

/// A token stream, flattened: every nested group replaced by its
/// contents, recursively.
pub open spec fn spec_flatten(s: Seq<TokenV>) -> Seq<TokenV>
    decreases tsheight(s),
{
    if s.len() == 0 {
        Seq::empty()
    } else {
        spec_flatten_one(s[0]) + spec_flatten(s.drop_first())
    }
}

/// Appending a token appends its flattening.
pub proof fn lemma_spec_flatten_push(s: Seq<TokenV>, x: TokenV)
    ensures
        spec_flatten(s.push(x)) == spec_flatten(s) + spec_flatten_one(x),
    decreases s,
{
    if s.len() == 0 {
        assert(s.push(x)[0] == x);
        assert(s.push(x).drop_first() =~= Seq::<TokenV>::empty());
        assert(spec_flatten(s.push(x).drop_first()) == Seq::<TokenV>::empty());
        assert(spec_flatten(s.push(x)) == spec_flatten_one(x) + Seq::<TokenV>::empty());
        assert(spec_flatten_one(x) + Seq::<TokenV>::empty() =~= spec_flatten_one(x));
        assert(spec_flatten(s) == Seq::<TokenV>::empty());
        assert(Seq::<TokenV>::empty() + spec_flatten_one(x) =~= spec_flatten_one(x));
    } else {
        assert(s.push(x).drop_first() =~= s.drop_first().push(x));
        lemma_spec_flatten_push(s.drop_first(), x);
        assert(s.push(x)[0] == s[0]);
        assert(spec_flatten(s.push(x)) =~= spec_flatten(s) + spec_flatten_one(x));
    }
}

/// A flattening holds no nested groups.
pub proof fn lemma_spec_flatten_flat(s: Seq<TokenV>)
    ensures
        all_flat(spec_flatten(s)),
    decreases tsheight(s),
{
    if s.len() > 0 {
        match s[0] {
            TokenV::TokensVec { toks } => {
                assert(theight(s[0]) == tsheight(toks) + 1);
                lemma_spec_flatten_flat(toks);
            },
            _ => {},
        }
        lemma_spec_flatten_flat(s.drop_first());
        assert forall|i: int| 0 <= i < spec_flatten(s).len() implies is_flat(
            #[trigger] spec_flatten(s)[i],
        ) by {
            let head = spec_flatten_one(s[0]);
            if i < head.len() {
                assert(spec_flatten(s)[i] == head[i]);
            } else {
                assert(spec_flatten(s)[i] == spec_flatten(s.drop_first())[i - head.len()]);
            }
        }
    }
}

/// A flat stream flattens to itself.
pub proof fn lemma_flatten_flat_id(s: Seq<TokenV>)
    requires
        all_flat(s),
    ensures
        spec_flatten(s) == s,
    decreases s,
{
    if s.len() > 0 {
        assert(is_flat(s[0]));
        match s[0] {
            TokenV::TokensVec { toks } => {
                assert(false);
            },
            _ => {
                assert(spec_flatten_one(s[0]) == seq![s[0]]);
            },
        }
        lemma_flatten_flat_id(s.drop_first());
        assert(spec_flatten(s) =~= s);
    }
}

/// Flattens a token stream: nested groups are replaced by their
/// contents, recursively, left to right.
pub fn flatten_print_tokens(tokens: &Vec<PrintToken>) -> (r: Vec<PrintToken>)
    ensures
        tviews(r@) == spec_flatten(tviews(tokens@)),
        all_flat(tviews(r@)),
    decreases tsheight(tviews(tokens@)),
{
    proof {
        lemma_spec_flatten_flat(tviews(tokens@));
    }
    let mut r: Vec<PrintToken> = Vec::new();
    let mut i: usize = 0;
    #[verifier::loop_isolation(false)]
    while i < tokens.len()
        invariant
            i <= tokens@.len(),
            tviews(r@) == spec_flatten(tviews(tokens@).take(i as int)),
        decreases tokens@.len() - i,
    {
        proof {
            lemma_tviews_len(tokens@);
            lemma_tviews_index(tokens@, i as int);
            lemma_tsheight_index(tviews(tokens@), i as int);
        }
        let ghost ts = tviews(tokens@);
        let ghost pre = r@;
        match &tokens[i] {
            PrintToken::PrintTokensVec(v) => {
                proof {
                    assert(ts.take(ts.len() as int) =~= ts);
                    assert(tsheight(tviews(v@)) < tsheight(ts)) by {
                        assert(theight(ts[i as int]) == tsheight(tviews(v@)) + 1);
                    }
                }
                let mut flat = flatten_print_tokens(v);
                let ghost flatv = flat@;
                r.append(&mut flat);
                proof {
                    lemma_tviews_concat(pre, flatv);
                    assert(spec_flatten_one(ts[i as int]) == spec_flatten(tviews(v@)));
                }
            },
            t => {
                let c = t.clone();
                let ghost cg = c;
                r.push(c);
                proof {
                    lemma_tviews_push(pre, cg);
                    assert(tview(cg) == ts[i as int]);
                    assert(spec_flatten_one(ts[i as int]) == seq![ts[i as int]]);
                    assert(tviews(pre).push(tview(cg)) =~= tviews(pre) + seq![ts[i as int]]);
                }
            },
        }
        proof {
            assert(ts.take(i + 1) =~= ts.take(i as int).push(ts[i as int]));
            lemma_spec_flatten_push(ts.take(i as int), ts[i as int]);
        }
        i = i + 1;
    }
    proof {
        lemma_tviews_len(tokens@);
        assert(tviews(tokens@).take(tokens@.len() as int) =~= tviews(tokens@));
    }
    r
}

/// Concatenating token vectors concatenates their models.
pub proof fn lemma_tviews_concat(a: Seq<PrintToken>, b: Seq<PrintToken>)
    ensures
        tviews(a + b) == tviews(a) + tviews(b),
    decreases b.len(),
{
    broadcast use lemma_tviews_len, lemma_tviews_index;

    assert forall|i: int| 0 <= i < a.len() + b.len() implies tviews(a + b)[i] == (tviews(a)
        + tviews(b))[i] by {
        if i < a.len() {
            assert((a + b)[i] == a[i]);
        } else {
            assert((a + b)[i] == b[i - a.len()]);
        }
    }
    assert(tviews(a + b) =~= tviews(a) + tviews(b));
}

/// Printable length of one flat token. The length of a string token is
/// the length of its content: the quotes around it are not counted when
/// measuring, as the reference layout behaves.
pub open spec fn token_len(t: TokenV) -> nat {
    match t {
        TokenV::StrTok { text } => text.len(),
        TokenV::BlockOpen { val, coord } => val.len(),
        TokenV::BlockClose { val, coord } => val.len(),
        TokenV::Atomic { val, coord } => val.len(),
        TokenV::Space => 1,
        TokenV::Newline => 1,
        TokenV::TokensVec { toks } => 0,
    }
}

/// Summed length of the leading line (up to the first newline).
pub open spec fn line_sum(s: Seq<TokenV>) -> nat
    decreases s,
{
    if s.len() == 0 {
        0
    } else if s[0] is Newline {
        0
    } else {
        token_len(s[0]) + line_sum(s.drop_first())
    }
}

/// What follows the first newline.
pub open spec fn after_line(s: Seq<TokenV>) -> Seq<TokenV>
    decreases s,
{
    if s.len() == 0 {
        s
    } else if s[0] is Newline {
        s.drop_first()
    } else {
        after_line(s.drop_first())
    }
}

/// Whether the stream holds a newline.
pub open spec fn has_nl(s: Seq<TokenV>) -> bool
    decreases s,
{
    if s.len() == 0 {
        false
    } else {
        s[0] is Newline || has_nl(s.drop_first())
    }
}

/// Dropping the first line shortens the stream, when a newline exists.
pub proof fn lemma_after_line_len(s: Seq<TokenV>)
    ensures
        has_nl(s) ==> after_line(s).len() < s.len(),
        !has_nl(s) ==> after_line(s).len() == 0,
    decreases s,
{
    if s.len() > 0 && !(s[0] is Newline) {
        lemma_after_line_len(s.drop_first());
    }
    if s.len() == 0 {
        assert(after_line(s) == s);
    }
}

/// Width of a flat token stream: the longest of its newline-separated
/// lines, each line measured as the sum of its tokens' lengths.
pub open spec fn spec_width(s: Seq<TokenV>) -> nat
    decreases s.len(),
    via spec_width_decreases
{
    if !has_nl(s) {
        line_sum(s)
    } else {
        let rest = spec_width(after_line(s));
        if line_sum(s) >= rest {
            line_sum(s)
        } else {
            rest
        }
    }
}

#[via_fn]
proof fn spec_width_decreases(s: Seq<TokenV>) {
    lemma_after_line_len(s);
}

/// A width, clamped to what a machine word can hold.
pub open spec fn wclamp(w: nat) -> nat {
    if w > usize::MAX {
        usize::MAX as nat
    } else {
        w
    }
}

/// Accumulator form of `spec_width`: `cur` is the running length of the
/// open line, `m` the widest line already closed.
pub open spec fn spec_width_from(s: Seq<TokenV>, cur: nat, m: nat) -> nat
    decreases s,
{
    if s.len() == 0 {
        if m >= cur {
            m
        } else {
            cur
        }
    } else if s[0] is Newline {
        spec_width_from(s.drop_first(), 0, if m >= cur {
            m
        } else {
            cur
        })
    } else {
        spec_width_from(s.drop_first(), cur + token_len(s[0]), m)
    }
}

/// The accumulator form agrees with `spec_width`.
pub proof fn lemma_spec_width_from(s: Seq<TokenV>, cur: nat, m: nat)
    ensures
        ({
            let full = cur + line_sum(s);
            let rest = if has_nl(s) {
                spec_width(after_line(s))
            } else {
                0
            };
            spec_width_from(s, cur, m) == if m >= full && m >= rest {
                m
            } else if full >= rest {
                full
            } else {
                rest
            }
        }),
    decreases s,
{
    lemma_after_line_len(s);
    if s.len() == 0 {
    } else if s[0] is Newline {
        lemma_spec_width_from(s.drop_first(), 0, if m >= cur {
            m
        } else {
            cur
        });
    } else {
        lemma_spec_width_from(s.drop_first(), cur + token_len(s[0]), m);
    }
}

/// Printable length of one flat token, on the executable side.
fn token_len_exec(t: &PrintToken) -> (r: usize)
    requires
        is_flat(tview(*t)),
    ensures
        r as nat == wclamp(token_len(tview(*t))),
{
    match t {
        PrintToken::String(s) => crate::lisp_reader::chars_count(s.as_str()),
        PrintToken::BlockOpen { val, coord } => crate::lisp_reader::chars_count(val.as_str()),
        PrintToken::BlockClose { val, coord } => crate::lisp_reader::chars_count(val.as_str()),
        PrintToken::Atomic { val, coord } => crate::lisp_reader::chars_count(val.as_str()),
        PrintToken::Space => 1,
        PrintToken::Newline => 1,
        PrintToken::PrintTokensVec(v) => 0,
    }
}

/// Width of a flat token stream: the longest newline-separated line.
/// A width beyond what a machine word holds is reported as the largest
/// word value, which a caller comparing against a small target cannot
/// tell apart from the true width.
pub fn tokens_width(tokens: &Vec<PrintToken>) -> (r: usize)
    requires
        all_flat(tviews(tokens@)),
    ensures
        r as nat == wclamp(spec_width(tviews(tokens@))),
{
    let ghost ts = tviews(tokens@);
    proof {
        lemma_tviews_len(tokens@);
        assert(ts.skip(0) =~= ts);
    }
    let mut cur: usize = 0;
    let mut m: usize = 0;
    let ghost mut curg: nat = 0;
    let ghost mut mg: nat = 0;
    let mut i: usize = 0;
    #[verifier::loop_isolation(false)]
    while i < tokens.len()
        invariant
            i <= tokens@.len(),
            spec_width_from(ts, 0, 0) == spec_width_from(ts.skip(i as int), curg, mg),
            cur as nat == wclamp(curg),
            m as nat == wclamp(mg),
        decreases tokens@.len() - i,
    {
        proof {
            lemma_tviews_len(tokens@);
            lemma_tviews_index(tokens@, i as int);
            assert(ts.skip(i as int)[0] == ts[i as int]);
            assert(ts.skip(i as int).drop_first() =~= ts.skip(i + 1));
        }
        let is_nl = match &tokens[i] {
            PrintToken::Newline => true,
            _ => false,
        };
        if is_nl {
            if cur > m {
                m = cur;
            }
            cur = 0;
            proof {
                mg = if mg >= curg {
                    mg
                } else {
                    curg
                };
                curg = 0;
            }
        } else {
            let l = token_len_exec(&tokens[i]);
            cur = cur.saturating_add(l);
            proof {
                curg = curg + token_len(ts[i as int]);
            }
        }
        i = i + 1;
    }
    proof {
        assert(ts.skip(tokens@.len() as int) =~= Seq::<TokenV>::empty());
    }
    if cur > m {
        m = cur;
    }
    proof {
        lemma_spec_width_from(ts, 0, 0);
        lemma_after_line_len(ts);
    }
    m
}

/// Printed text of one flat token: a string token is re-quoted, spaces
/// and newlines print as themselves, the rest print their value.
pub open spec fn token_text(t: TokenV) -> Seq<char> {
    match t {
        TokenV::StrTok { text } => seq!['"'] + text + seq!['"'],
        TokenV::BlockOpen { val, coord } => val,
        TokenV::BlockClose { val, coord } => val,
        TokenV::Atomic { val, coord } => val,
        TokenV::Space => seq![' '],
        TokenV::Newline => seq!['\n'],
        TokenV::TokensVec { toks } => Seq::empty(),
    }
}

/// Printed text of a flat token stream.
pub open spec fn spec_tokens_text(s: Seq<TokenV>) -> Seq<char>
    decreases s,
{
    if s.len() == 0 {
        Seq::empty()
    } else {
        token_text(s[0]) + spec_tokens_text(s.drop_first())
    }
}

/// Appending a token appends its text.
pub proof fn lemma_spec_tokens_text_push(s: Seq<TokenV>, x: TokenV)
    ensures
        spec_tokens_text(s.push(x)) == spec_tokens_text(s) + token_text(x),
    decreases s,
{
    if s.len() == 0 {
        assert(s.push(x)[0] == x);
        assert(s.push(x).drop_first() =~= Seq::<TokenV>::empty());
        assert(spec_tokens_text(s.push(x).drop_first()) == Seq::<char>::empty());
        assert(spec_tokens_text(s.push(x)) == token_text(x) + Seq::<char>::empty());
        assert(token_text(x) + Seq::<char>::empty() =~= token_text(x));
        assert(spec_tokens_text(s) == Seq::<char>::empty());
        assert(Seq::<char>::empty() + token_text(x) =~= token_text(x));
    } else {
        assert(s.push(x).drop_first() =~= s.drop_first().push(x));
        lemma_spec_tokens_text_push(s.drop_first(), x);
        assert(s.push(x)[0] == s[0]);
        assert(spec_tokens_text(s.push(x)) =~= spec_tokens_text(s) + token_text(x));
    }
}

/// Prints a flat token stream as text: what the layout looks like.
pub fn print_tokens_to_str(tokens: &Vec<PrintToken>) -> (r: String)
    requires
        all_flat(tviews(tokens@)),
    ensures
        r@ == spec_tokens_text(tviews(tokens@)),
{
    let ghost ts = tviews(tokens@);
    proof {
        lemma_tviews_len(tokens@);
    }
    let mut r = String::new();
    let mut i: usize = 0;
    #[verifier::loop_isolation(false)]
    while i < tokens.len()
        invariant
            i <= tokens@.len(),
            r@ == spec_tokens_text(ts.take(i as int)),
        decreases tokens@.len() - i,
    {
        proof {
            lemma_tviews_index(tokens@, i as int);
            reveal_strlit("\"");
            reveal_strlit(" ");
            reveal_strlit("\n");
        }
        match &tokens[i] {
            PrintToken::String(sv) => {
                r.append("\"");
                r.append(sv.as_str());
                r.append("\"");
            },
            PrintToken::BlockOpen { val, coord } => {
                r.append(val.as_str());
            },
            PrintToken::BlockClose { val, coord } => {
                r.append(val.as_str());
            },
            PrintToken::Atomic { val, coord } => {
                r.append(val.as_str());
            },
            PrintToken::Space => {
                r.append(" ");
            },
            PrintToken::Newline => {
                r.append("\n");
            },
            PrintToken::PrintTokensVec(v) => {
                proof {
                    assert(is_flat(ts[i as int]));
                    assert(false);
                }
            },
        }
        proof {
            assert(ts.take(i + 1) =~= ts.take(i as int).push(ts[i as int]));
            lemma_spec_tokens_text_push(ts.take(i as int), ts[i as int]);
            assert(r@ =~= spec_tokens_text(ts.take(i + 1)));
        }
        i = i + 1;
    }
    proof {
        assert(ts.take(tokens@.len() as int) =~= ts);
    }
    r
}

/// Fixed indentation of body lines under `defn`-, `let`- and pairs-style
/// layouts.
pub const INDENT_WIDTH: usize = 2;

/// Width arithmetic, saturating at what a machine word can hold.
pub open spec fn sadd(a: nat, b: nat) -> nat {
    wclamp(a + b)
}

/// The children of a map, flattened back into one ordered sequence:
/// key, value, key, value, ...; a key or value without a partner is
/// dropped.
pub open spec fn interleave(keys: Seq<FormV>, vals: Seq<FormV>) -> Seq<FormV>
    decreases keys,
{
    if keys.len() == 0 || vals.len() == 0 {
        Seq::empty()
    } else {
        seq![keys[0], vals[0]] + interleave(keys.drop_first(), vals.drop_first())
    }
}

/// Interleaving never grows above the summed heights of its parts.
pub proof fn lemma_interleave_sheight(keys: Seq<FormV>, vals: Seq<FormV>)
    ensures
        sheight(interleave(keys, vals)) <= sheight(keys) + sheight(vals),
    decreases keys,
{
    if keys.len() != 0 && vals.len() != 0 {
        lemma_interleave_sheight(keys.drop_first(), vals.drop_first());
        let t = interleave(keys.drop_first(), vals.drop_first());
        assert(interleave(keys, vals)[0] == keys[0]);
        assert(interleave(keys, vals).drop_first() =~= seq![vals[0]] + t);
        assert((seq![vals[0]] + t)[0] == vals[0]);
        assert((seq![vals[0]] + t).drop_first() =~= t);
        assert(sheight(seq![vals[0]] + t) == fheight(vals[0]) + sheight(t) + 1);
        assert(sheight(interleave(keys, vals)) == fheight(keys[0]) + sheight(seq![vals[0]] + t)
            + 1);
        assert(sheight(keys) == fheight(keys[0]) + sheight(keys.drop_first()) + 1);
        assert(sheight(vals) == fheight(vals[0]) + sheight(vals.drop_first()) + 1);
    }
}

/// The flat token stream of one form, laid out by its own style, with
/// its left margin at column `left`.
pub open spec fn spec_form_tokens(f: FormV, left: nat) -> Seq<TokenV>
    decreases fheight(f), 3int,
{
    match f {
        FormV::List { childs, style, coord } => spec_form_tokens_styled(f, style, left),
        FormV::Vector { childs, style, coord } => spec_form_tokens_styled(f, style, left),
        FormV::SetForm { childs, style, coord } => spec_form_tokens_styled(f, style, left),
        FormV::MapForm { keys, vals, style, coord } => spec_form_tokens_styled(f, style, left),
        _ => spec_form_tokens_styled(f, PrintStyle::Linear, left),
    }
}

/// The flat token stream of one form, laid out as though its style were
/// `style`; non-compound forms ignore the style. Delimiter and atom
/// tokens carry the coordinate of the node they render; a regular
/// expression lost its coordinate in the reader and renders as one
/// atomic token with the empty coordinate.
pub open spec fn spec_form_tokens_styled(f: FormV, style: PrintStyle, left: nat) -> Seq<TokenV>
    decreases fheight(f), 2int,
    via spec_form_tokens_styled_decreases
{
    match f {
        FormV::Atomic { text, coord } => seq![TokenV::Atomic { val: text, coord }],
        FormV::StrLit { text } => seq![TokenV::StrTok { text }],
        FormV::Regexp { text } => seq![
            TokenV::Atomic {
                val: seq!['#', '"'] + text + seq!['"'],
                coord: Seq::empty(),
            },
        ],
        FormV::Tagged { tag, form, coord } => seq![
            TokenV::Atomic { val: seq!['#'] + tag, coord },
        ] + spec_form_tokens(*form, sadd(left, tag.len() + 1)),
        FormV::List { childs, style: s0, coord } => seq![
            TokenV::BlockOpen { val: seq!['('], coord },
        ] + spec_seq_tokens(childs, style, left) + seq![
            TokenV::BlockClose { val: seq![')'], coord },
        ],
        FormV::Vector { childs, style: s0, coord } => seq![
            TokenV::BlockOpen { val: seq!['['], coord },
        ] + spec_seq_tokens(childs, style, left) + seq![
            TokenV::BlockClose { val: seq![']'], coord },
        ],
        FormV::SetForm { childs, style: s0, coord } => seq![
            TokenV::BlockOpen { val: seq!['#', '{'], coord },
        ] + spec_seq_tokens(childs, style, left) + seq![
            TokenV::BlockClose { val: seq!['}'], coord },
        ],
        FormV::MapForm { keys, vals, style: s0, coord } => seq![
            TokenV::BlockOpen { val: seq!['{'], coord },
        ] + spec_seq_tokens(interleave(keys, vals), PrintStyle::PairsBlock, left) + seq![
            TokenV::BlockClose { val: seq!['}'], coord },
        ],
    }
}

#[via_fn]
proof fn spec_form_tokens_styled_decreases(f: FormV, style: PrintStyle, left: nat) {
    match f {
        FormV::MapForm { keys, vals, style: s0, coord } => {
            lemma_interleave_sheight(keys, vals);
        },
        _ => {},
    }
}

/// The flat token stream of a compound form's children, under `style`.
pub open spec fn spec_seq_tokens(childs: Seq<FormV>, style: PrintStyle, left: nat) -> Seq<TokenV>
    decreases sheight(childs), 1int,
{
    if childs.len() == 0 {
        Seq::empty()
    } else {
        match style {
            PrintStyle::Standard => {
                let flen = wclamp(spec_width(spec_form_tokens(childs[0], left)));
                spec_form_tokens(childs[0], left) + spec_standard_tail(
                    childs.drop_first(),
                    left,
                    flen,
                    true,
                )
            },
            PrintStyle::Defn => spec_defn_tokens(childs, left),
            PrintStyle::PairsBlock => spec_pairs_tokens(childs, left),
            PrintStyle::Binding => spec_binding_tokens(childs, left),
            _ => spec_linear_tokens(childs, left),
        }
    }
}

/// Children joined by single spaces, no line breaks.
pub open spec fn spec_linear_tokens(childs: Seq<FormV>, left: nat) -> Seq<TokenV>
    decreases sheight(childs), 0int,
{
    if childs.len() == 0 {
        Seq::empty()
    } else {
        spec_form_tokens(childs[0], left) + spec_linear_tail(childs.drop_first(), left)
    }
}

/// Children after the first in a linear layout: each preceded by a space.
pub open spec fn spec_linear_tail(rest: Seq<FormV>, left: nat) -> Seq<TokenV>
    decreases sheight(rest), 0int,
{
    if rest.len() == 0 {
        Seq::empty()
    } else {
        seq![TokenV::Space] + spec_form_tokens(rest[0], left) + spec_linear_tail(
            rest.drop_first(),
            left,
        )
    }
}

/// Children of a `Standard`-styled form after the first: the second sits
/// inline after one space; the rest each start a new line, indented two
/// columns past the end of the first child.
pub open spec fn spec_standard_tail(
    rest: Seq<FormV>,
    left: nat,
    flen: nat,
    second: bool,
) -> Seq<TokenV>
    decreases sheight(rest), 0int,
{
    if rest.len() == 0 {
        Seq::empty()
    } else if second {
        seq![TokenV::Space] + spec_form_tokens(rest[0], sadd(sadd(left, flen), 1))
            + spec_standard_tail(rest.drop_first(), left, flen, false)
    } else {
        spec_indented_nl(sadd(sadd(left, flen), 2)) + spec_form_tokens(
            rest[0],
            sadd(sadd(left, flen), 2),
        ) + spec_standard_tail(rest.drop_first(), left, flen, false)
    }
}

/// Body forms each on their own line at indentation `ind`.
pub open spec fn spec_indent_tail(rest: Seq<FormV>, ind: nat) -> Seq<TokenV>
    decreases sheight(rest), 0int,
{
    if rest.len() == 0 {
        Seq::empty()
    } else {
        spec_indented_nl(ind) + spec_form_tokens(rest[0], ind) + spec_indent_tail(
            rest.drop_first(),
            ind,
        )
    }
}

/// A `defn`-styled list: up to three children render inline, each
/// followed by one space; the remaining body forms each get their own
/// indented line.
pub open spec fn spec_defn_tokens(childs: Seq<FormV>, left: nat) -> Seq<TokenV>
    decreases sheight(childs), 0int,
{
    if childs.len() == 0 {
        Seq::empty()
    } else {
        let a = spec_form_tokens(childs[0], left);
        let alen = wclamp(spec_width(a));
        a + seq![TokenV::Space] + spec_defn_b(childs.drop_first(), left, alen)
    }
}

/// Second inline part of a `defn`-styled list.
pub open spec fn spec_defn_b(rest: Seq<FormV>, left: nat, alen: nat) -> Seq<TokenV>
    decreases sheight(rest), 0int,
{
    if rest.len() == 0 {
        Seq::empty()
    } else {
        let b = spec_form_tokens(rest[0], sadd(sadd(left, alen), 1));
        let blen = wclamp(spec_width(b));
        b + seq![TokenV::Space] + spec_defn_c(rest.drop_first(), left, alen, blen)
    }
}

/// Third inline part of a `defn`-styled list, then the indented body.
pub open spec fn spec_defn_c(rest: Seq<FormV>, left: nat, alen: nat, blen: nat) -> Seq<TokenV>
    decreases sheight(rest), 0int,
{
    if rest.len() == 0 {
        Seq::empty()
    } else {
        let c = spec_form_tokens(rest[0], sadd(sadd(sadd(left, alen), blen), 1));
        c + seq![TokenV::Space] + spec_indent_tail(
            rest.drop_first(),
            sadd(left, INDENT_WIDTH as nat),
        )
    }
}

/// The key of a pair: a list, vector or set key is forced to render on
/// one line; any other key renders by its own style.
pub open spec fn spec_key_tokens(k: FormV, left: nat) -> Seq<TokenV>
    decreases fheight(k), 4int,
{
    match k {
        FormV::List { childs, style, coord } => spec_form_tokens_styled(
            k,
            PrintStyle::Linear,
            left,
        ),
        FormV::Vector { childs, style, coord } => spec_form_tokens_styled(
            k,
            PrintStyle::Linear,
            left,
        ),
        FormV::SetForm { childs, style, coord } => spec_form_tokens_styled(
            k,
            PrintStyle::Linear,
            left,
        ),
        _ => spec_form_tokens(k, left),
    }
}

/// Pairs-styled children: each `key value` pair on one line, the value
/// one space past the key's end; pairs joined by indented line breaks;
/// a trailing key without a value renders alone.
pub open spec fn spec_pairs_tokens(childs: Seq<FormV>, left: nat) -> Seq<TokenV>
    decreases sheight(childs), 0int,
{
    if childs.len() == 0 {
        Seq::empty()
    } else {
        let kt = spec_key_tokens(childs[0], left);
        let klen = wclamp(spec_width(kt));
        spec_pairs_rest(childs.drop_first(), left, kt, klen)
    }
}

/// The value of a pair and the pairs after it; `kt` is the key's tokens.
pub open spec fn spec_pairs_rest(
    rest: Seq<FormV>,
    left: nat,
    kt: Seq<TokenV>,
    klen: nat,
) -> Seq<TokenV>
    decreases sheight(rest), 1int,
{
    if rest.len() == 0 {
        kt
    } else {
        let vt = spec_form_tokens(rest[0], sadd(sadd(left, klen), 1));
        if rest.len() == 1 {
            kt + seq![TokenV::Space] + vt
        } else {
            kt + seq![TokenV::Space] + vt + spec_indented_nl(sadd(left, INDENT_WIDTH as nat))
                + spec_pairs_tokens(rest.drop_first(), left)
        }
    }
}

/// A `let`-styled list: the binding symbol and the binding vector render
/// inline (the vector as a pairs block); the body forms each get their
/// own indented line.
pub open spec fn spec_binding_tokens(childs: Seq<FormV>, left: nat) -> Seq<TokenV>
    decreases sheight(childs), 0int,
{
    if childs.len() == 0 {
        Seq::empty()
    } else {
        let st = spec_form_tokens(childs[0], left);
        let slen = wclamp(spec_width(st));
        st + seq![TokenV::Space] + spec_binding_b(childs.drop_first(), left, slen)
    }
}

/// The binding vector of a `let`-styled list, then the indented body.
pub open spec fn spec_binding_b(rest: Seq<FormV>, left: nat, slen: nat) -> Seq<TokenV>
    decreases sheight(rest), 0int,
{
    if rest.len() == 0 {
        Seq::empty()
    } else {
        let bt = match rest[0] {
            FormV::Vector { childs, style, coord } => spec_form_tokens_styled(
                rest[0],
                PrintStyle::PairsBlock,
                sadd(sadd(left, slen), 2),
            ),
            _ => spec_form_tokens(rest[0], sadd(sadd(left, slen), 2)),
        };
        bt + seq![TokenV::Space] + spec_indent_tail(
            rest.drop_first(),
            sadd(left, INDENT_WIDTH as nat),
        )
    }
}

/// Interleaving, element by element: even positions are keys, odd
/// positions values; the length is twice the shorter input.
pub proof fn lemma_interleave_index(keys: Seq<FormV>, vals: Seq<FormV>)
    ensures
        interleave(keys, vals).len() == 2 * (if keys.len() <= vals.len() {
            keys.len()
        } else {
            vals.len()
        }),
        forall|t: int|
            0 <= 2 * t < interleave(keys, vals).len() ==> #[trigger] interleave(keys, vals)[2 * t]
                == keys[t],
        forall|t: int|
            0 <= 2 * t + 1 < interleave(keys, vals).len() ==> #[trigger] interleave(
                keys,
                vals,
            )[2 * t + 1] == vals[t],
    decreases keys,
{
    if keys.len() != 0 && vals.len() != 0 {
        lemma_interleave_index(keys.drop_first(), vals.drop_first());
        let t = interleave(keys.drop_first(), vals.drop_first());
        assert forall|q: int| 0 <= 2 * q < interleave(keys, vals).len() implies #[trigger]
        interleave(keys, vals)[2 * q] == keys[q] by {
            if q > 0 {
                assert(interleave(keys, vals)[2 * q] == t[2 * (q - 1)]);
            }
        }
        assert forall|q: int| 0 <= 2 * q + 1 < interleave(keys, vals).len() implies #[trigger]
        interleave(keys, vals)[2 * q + 1] == vals[q] by {
            if q > 0 {
                assert(interleave(keys, vals)[2 * q + 1] == t[2 * (q - 1) + 1]);
            }
        }
    }
}

/// Moves the tokens of `src` to the end of `dst`.
fn append_tokens(dst: &mut Vec<PrintToken>, src: Vec<PrintToken>)
    ensures
        tviews(final(dst)@) == tviews(old(dst)@) + tviews(src@),
{
    let ghost a = old(dst)@;
    let ghost b = src@;
    let mut s = src;
    dst.append(&mut s);
    proof {
        lemma_tviews_concat(a, b);
    }
}

/// The tokens of the `n`th child, and the width of that child's layout.
fn n_symbol_print(childs: &Vec<PrintableLispForm>, n: usize, left: usize) -> (r: (
    Vec<PrintToken>,
    usize,
))
    requires
        n < childs@.len(),
    ensures
        tviews(r.0@) == spec_form_tokens(fview(childs@[n as int]), left as nat),
        all_flat(tviews(r.0@)),
        r.1 as nat == wclamp(spec_width(spec_form_tokens(fview(childs@[n as int]), left as nat))),
    decreases fheight(fview(childs@[n as int])), 4int,
{
    let toks = lisp_form_print_tokens_aux(&childs[n], left);
    let flat = flatten_print_tokens(&toks);
    let w = tokens_width(&flat);
    proof {
        lemma_flatten_flat_id(tviews(toks@));
    }
    (toks, w)
}

/// The flat print tokens of one form at margin `left`: delimiters around
/// the children laid out by the form's style, every delimiter and atom
/// carrying its node's coordinate.
pub fn lisp_form_print_tokens_aux(pform: &PrintableLispForm, left: usize) -> (r: Vec<PrintToken>)
    ensures
        tviews(r@) == spec_form_tokens(fview(*pform), left as nat),
        all_flat(tviews(r@)),
    decreases fheight(fview(*pform)), 3int,
{
    broadcast use lemma_tviews_push, lemma_tviews_len, lemma_tviews_index;

    proof {
        reveal_strlit("(");
        reveal_strlit(")");
        reveal_strlit("[");
        reveal_strlit("]");
        reveal_strlit("#{");
        reveal_strlit("{");
        reveal_strlit("}");
        reveal_strlit("#");
        reveal_strlit("#\"");
        reveal_strlit("\"");
        assert("("@ =~= seq!['(']);
        assert(")"@ =~= seq![')']);
        assert("["@ =~= seq!['[']);
        assert("]"@ =~= seq![']']);
        assert("#{"@ =~= seq!['#', '{']);
        assert("{"@ =~= seq!['{']);
        assert("}"@ =~= seq!['}']);
        assert("#"@ =~= seq!['#']);
        assert("#\""@ =~= seq!['#', '"']);
        assert("\""@ =~= seq!['"']);
    }
    match pform {
        PrintableLispForm::Atomic(s, c) => {
            let mut r: Vec<PrintToken> = Vec::new();
            r.push(PrintToken::Atomic { val: s.clone(), coord: clone_coord(c) });
            proof {
                assert(tviews(r@) =~= spec_form_tokens(fview(*pform), left as nat));
            }
            r
        },
        PrintableLispForm::String(s) => {
            let mut r: Vec<PrintToken> = Vec::new();
            r.push(PrintToken::String(s.clone()));
            proof {
                assert(tviews(r@) =~= spec_form_tokens(fview(*pform), left as nat));
            }
            r
        },
        PrintableLispForm::Regexp(s) => {
            let mut v = "#\"".to_owned();
            v.append(s.as_str());
            v.append("\"");
            let mut r: Vec<PrintToken> = Vec::new();
            r.push(PrintToken::Atomic { val: v, coord: Vec::new() });
            proof {
                assert(tviews(r@) =~= spec_form_tokens(fview(*pform), left as nat));
            }
            r
        },
        PrintableLispForm::Tagged { tag, form, coord } => {
            let mut v = "#".to_owned();
            v.append(tag.as_str());
            let mut r: Vec<PrintToken> = Vec::new();
            r.push(PrintToken::Atomic { val: v, coord: clone_coord(coord) });
            let tlen = crate::lisp_reader::chars_count(tag.as_str());
            proof {
                assert(fheight(fview(*pform)) == fheight(fview(**form)) + 1);
            }
            let sub = lisp_form_print_tokens_aux(form, left.saturating_add(tlen).saturating_add(1));
            let ghost pre = r@;
            append_tokens(&mut r, sub);
            proof {
                assert(left.saturating_add(tlen).saturating_add(1) as nat == sadd(
                    left as nat,
                    tag@.len() + 1,
                ));
                assert(tviews(r@) =~= spec_form_tokens(fview(*pform), left as nat));
            }
            r
        },
        PrintableLispForm::List { childs, style, coord } => {
            let mut r: Vec<PrintToken> = Vec::new();
            r.push(PrintToken::BlockOpen { val: "(".to_owned(), coord: clone_coord(coord) });
            proof {
                assert(fheight(fview(*pform)) == sheight(fviews(childs@)) + 1);
            }
            let body = lisp_form_seq_print_tokens(pform, left);
            append_tokens(&mut r, body);
            r.push(PrintToken::BlockClose { val: ")".to_owned(), coord: clone_coord(coord) });
            proof {
                assert(tviews(r@) =~= spec_form_tokens(fview(*pform), left as nat));
            }
            r
        },
        PrintableLispForm::Vector { childs, style, coord } => {
            let mut r: Vec<PrintToken> = Vec::new();
            r.push(PrintToken::BlockOpen { val: "[".to_owned(), coord: clone_coord(coord) });
            proof {
                assert(fheight(fview(*pform)) == sheight(fviews(childs@)) + 1);
            }
            let body = lisp_form_seq_print_tokens(pform, left);
            append_tokens(&mut r, body);
            r.push(PrintToken::BlockClose { val: "]".to_owned(), coord: clone_coord(coord) });
            proof {
                assert(tviews(r@) =~= spec_form_tokens(fview(*pform), left as nat));
            }
            r
        },
        PrintableLispForm::SetForm { childs, style, coord } => {
            let mut r: Vec<PrintToken> = Vec::new();
            r.push(PrintToken::BlockOpen { val: "#{".to_owned(), coord: clone_coord(coord) });
            proof {
                assert(fheight(fview(*pform)) == sheight(fviews(childs@)) + 1);
            }
            let body = lisp_form_seq_print_tokens(pform, left);
            append_tokens(&mut r, body);
            r.push(PrintToken::BlockClose { val: "}".to_owned(), coord: clone_coord(coord) });
            proof {
                assert(tviews(r@) =~= spec_form_tokens(fview(*pform), left as nat));
            }
            r
        },
        PrintableLispForm::MapForm { keys, vals, style, coord } => {
            let mut r: Vec<PrintToken> = Vec::new();
            r.push(PrintToken::BlockOpen { val: "{".to_owned(), coord: clone_coord(coord) });
            let body = map_body_print_tokens(pform, left);
            append_tokens(&mut r, body);
            r.push(PrintToken::BlockClose { val: "}".to_owned(), coord: clone_coord(coord) });
            proof {
                assert(tviews(r@) =~= spec_form_tokens(fview(*pform), left as nat));
            }
            r
        },
    }
}

/// The body tokens of a map: the parallel key and value sequences are
/// interleaved back into one child sequence and rendered as a pairs
/// block.
fn map_body_print_tokens(pform: &PrintableLispForm, left: usize) -> (r: Vec<PrintToken>)
    requires
        pform is MapForm,
    ensures
        (match fview(*pform) {
            FormV::MapForm { keys, vals, style, coord } => tviews(r@) == spec_seq_tokens(
                interleave(keys, vals),
                PrintStyle::PairsBlock,
                left as nat,
            ),
            _ => false,
        }),
        all_flat(tviews(r@)),
    decreases fheight(fview(*pform)), 2int,
{
    match pform {
        PrintableLispForm::MapForm { keys, vals, style, coord } => {
            let ghost kv = fviews(keys@);
            let ghost vv = fviews(vals@);
            let n = if keys.len() <= vals.len() {
                keys.len()
            } else {
                vals.len()
            };
            proof {
                lemma_fviews_len(keys@);
                lemma_fviews_len(vals@);
                lemma_interleave_index(kv, vv);
            }
            let mut inter: Vec<PrintableLispForm> = Vec::new();
            let mut i: usize = 0;
            #[verifier::loop_isolation(false)]
            while i < n
                invariant
                    i <= n,
                    inter@.len() == 2 * i,
                    forall|t: int|
                        0 <= t < 2 * i ==> fview(#[trigger] inter@[t]) == interleave(kv, vv)[t],
                decreases n - i,
            {
                proof {
                    lemma_fviews_index(keys@, i as int);
                    lemma_fviews_index(vals@, i as int);
                }
                inter.push(keys[i].clone());
                inter.push(vals[i].clone());
                i = i + 1;
            }
            proof {
                lemma_fviews_len(inter@);
                assert forall|t: int| 0 <= t < 2 * n implies #[trigger] fviews(inter@)[t]
                    == interleave(kv, vv)[t] by {
                    lemma_fviews_index(inter@, t);
                }
                assert(fviews(inter@) =~= interleave(kv, vv));
                lemma_interleave_sheight(kv, vv);
                assert(fheight(fview(*pform)) == sheight(kv) + sheight(vv) + 1);
            }
            childs_print_tokens(&inter, PrintStyle::PairsBlock, left)
        },
        _ => {
            proof {
                assert(false);
            }
            Vec::new()
        },
    }
}

/// The body tokens of a list, vector or set: its children laid out by
/// the form's current style.
fn lisp_form_seq_print_tokens(pform: &PrintableLispForm, left: usize) -> (r: Vec<PrintToken>)
    requires
        pform is List || pform is Vector || pform is SetForm,
    ensures
        (match fview(*pform) {
            FormV::List { childs, style, coord } => tviews(r@) == spec_seq_tokens(
                childs,
                style,
                left as nat,
            ),
            FormV::Vector { childs, style, coord } => tviews(r@) == spec_seq_tokens(
                childs,
                style,
                left as nat,
            ),
            FormV::SetForm { childs, style, coord } => tviews(r@) == spec_seq_tokens(
                childs,
                style,
                left as nat,
            ),
            _ => false,
        }),
        all_flat(tviews(r@)),
    decreases fheight(fview(*pform)), 2int,
{
    match pform {
        PrintableLispForm::List { childs, style, coord } => {
            proof {
                assert(fheight(fview(*pform)) == sheight(fviews(childs@)) + 1);
            }
            childs_print_tokens(childs, *style, left)
        },
        PrintableLispForm::Vector { childs, style, coord } => {
            proof {
                assert(fheight(fview(*pform)) == sheight(fviews(childs@)) + 1);
            }
            childs_print_tokens(childs, *style, left)
        },
        PrintableLispForm::SetForm { childs, style, coord } => {
            proof {
                assert(fheight(fview(*pform)) == sheight(fviews(childs@)) + 1);
            }
            childs_print_tokens(childs, *style, left)
        },
        _ => {
            proof {
                assert(false);
            }
            Vec::new()
        },
    }
}

/// The tokens of a list, vector or set rendered as though its style
/// were `style` (delimiters included).
fn styled_form_tokens(pform: &PrintableLispForm, style: PrintStyle, left: usize) -> (r: Vec<
    PrintToken,
>)
    requires
        pform is List || pform is Vector || pform is SetForm,
    ensures
        tviews(r@) == spec_form_tokens_styled(fview(*pform), style, left as nat),
        all_flat(tviews(r@)),
    decreases fheight(fview(*pform)), 2int,
{
    broadcast use lemma_tviews_push, lemma_tviews_len, lemma_tviews_index;

    proof {
        reveal_strlit("(");
        reveal_strlit(")");
        reveal_strlit("[");
        reveal_strlit("]");
        reveal_strlit("#{");
        reveal_strlit("}");
        assert("("@ =~= seq!['(']);
        assert(")"@ =~= seq![')']);
        assert("["@ =~= seq!['[']);
        assert("]"@ =~= seq![']']);
        assert("#{"@ =~= seq!['#', '{']);
        assert("}"@ =~= seq!['}']);
    }
    match pform {
        PrintableLispForm::List { childs, style: s0, coord } => {
            proof {
                assert(fheight(fview(*pform)) == sheight(fviews(childs@)) + 1);
            }
            let mut r: Vec<PrintToken> = Vec::new();
            r.push(PrintToken::BlockOpen { val: "(".to_owned(), coord: clone_coord(coord) });
            let body = childs_print_tokens(childs, style, left);
            append_tokens(&mut r, body);
            r.push(PrintToken::BlockClose { val: ")".to_owned(), coord: clone_coord(coord) });
            proof {
                assert(tviews(r@) =~= spec_form_tokens_styled(fview(*pform), style, left as nat));
            }
            r
        },
        PrintableLispForm::Vector { childs, style: s0, coord } => {
            proof {
                assert(fheight(fview(*pform)) == sheight(fviews(childs@)) + 1);
            }
            let mut r: Vec<PrintToken> = Vec::new();
            r.push(PrintToken::BlockOpen { val: "[".to_owned(), coord: clone_coord(coord) });
            let body = childs_print_tokens(childs, style, left);
            append_tokens(&mut r, body);
            r.push(PrintToken::BlockClose { val: "]".to_owned(), coord: clone_coord(coord) });
            proof {
                assert(tviews(r@) =~= spec_form_tokens_styled(fview(*pform), style, left as nat));
            }
            r
        },
        PrintableLispForm::SetForm { childs, style: s0, coord } => {
            proof {
                assert(fheight(fview(*pform)) == sheight(fviews(childs@)) + 1);
            }
            let mut r: Vec<PrintToken> = Vec::new();
            r.push(PrintToken::BlockOpen { val: "#{".to_owned(), coord: clone_coord(coord) });
            let body = childs_print_tokens(childs, style, left);
            append_tokens(&mut r, body);
            r.push(PrintToken::BlockClose { val: "}".to_owned(), coord: clone_coord(coord) });
            proof {
                assert(tviews(r@) =~= spec_form_tokens_styled(fview(*pform), style, left as nat));
            }
            r
        },
        _ => {
            proof {
                assert(false);
            }
            Vec::new()
        },
    }
}

/// The tokens of one pair key: a list, vector or set key renders on one
/// line; other keys render by their own style.
fn key_print_tokens(key: &PrintableLispForm, left: usize) -> (r: Vec<PrintToken>)
    ensures
        tviews(r@) == spec_key_tokens(fview(*key), left as nat),
        all_flat(tviews(r@)),
    decreases fheight(fview(*key)), 5int,
{
    match key {
        PrintableLispForm::List { childs, style, coord } => styled_form_tokens(
            key,
            PrintStyle::Linear,
            left,
        ),
        PrintableLispForm::Vector { childs, style, coord } => styled_form_tokens(
            key,
            PrintStyle::Linear,
            left,
        ),
        PrintableLispForm::SetForm { childs, style, coord } => styled_form_tokens(
            key,
            PrintStyle::Linear,
            left,
        ),
        _ => lisp_form_print_tokens_aux(key, left),
    }
}

/// The children of a compound form, laid out under `style`.
/// A suffix of a sequence weighs no more than the whole; strictly less
/// when at least one element is dropped.
pub proof fn lemma_sheight_skip(s: Seq<FormV>, k: int)
    requires
        0 <= k <= s.len(),
    ensures
        sheight(s.skip(k)) <= sheight(s),
        k >= 1 && s.len() > 0 ==> sheight(s.skip(k)) < sheight(s),
    decreases k,
{
    if k == 0 {
        assert(s.skip(0) =~= s);
    } else {
        assert(s.skip(1) =~= s.drop_first());
        if k == 1 {
        } else {
            lemma_sheight_skip(s.drop_first(), k - 1);
            assert(s.drop_first().skip(k - 1) =~= s.skip(k));
        }
    }
}

/// Body forms from `start` on, each on its own line at indentation `ind`.
fn indent_tail_tokens(childs: &Vec<PrintableLispForm>, start: usize, ind: usize) -> (r: Vec<
    PrintToken,
>)
    requires
        1 <= start <= childs@.len(),
    ensures
        tviews(r@) == spec_indent_tail(fviews(childs@).skip(start as int), ind as nat),
        all_flat(tviews(r@)),
    decreases sheight(fviews(childs@).skip(start as int)), 1int,
{
    let ghost cs = fviews(childs@);
    proof {
        lemma_fviews_len(childs@);
    }
    let mut r: Vec<PrintToken> = Vec::new();
    let mut i: usize = start;
    #[verifier::loop_isolation(false)]
    while i < childs.len()
        invariant
            start <= i <= childs@.len(),
            spec_indent_tail(cs.skip(start as int), ind as nat) == tviews(r@) + spec_indent_tail(
                cs.skip(i as int),
                ind as nat,
            ),
            all_flat(tviews(r@)),
        decreases childs@.len() - i,
    {
        proof {
            lemma_fviews_index(childs@, i as int);
            lemma_sheight_index(cs.skip(start as int), i - start as int);
            assert(cs.skip(start as int)[i - start as int] == cs[i as int]);
            assert(cs.skip(i as int)[0] == cs[i as int]);
            assert(cs.skip(i as int).drop_first() =~= cs.skip(i + 1));
        }
        let nl = indented_nl(ind);
        append_tokens(&mut r, nl);
        let sub = lisp_form_print_tokens_aux(&childs[i], ind);
        append_tokens(&mut r, sub);
        proof {
            assert(spec_indent_tail(cs.skip(start as int), ind as nat) =~= tviews(r@)
                + spec_indent_tail(cs.skip(i + 1), ind as nat));
        }
        i = i + 1;
    }
    proof {
        assert(cs.skip(childs@.len() as int) =~= Seq::<FormV>::empty());
        assert(spec_indent_tail(cs.skip(start as int), ind as nat) =~= tviews(r@));
    }
    r
}

/// Children of a compound form under the corresponding style.
#[verifier::rlimit(50)]
fn standard_childs_tokens(childs: &Vec<PrintableLispForm>, left: usize) -> (r: Vec<PrintToken>)
    requires
        childs@.len() > 0,
    ensures
        tviews(r@) == spec_seq_tokens(fviews(childs@), PrintStyle::Standard, left as nat),
        all_flat(tviews(r@)),
    decreases sheight(fviews(childs@)), 0int,
{
    broadcast use lemma_tviews_push, lemma_tviews_len, lemma_tviews_index;

    let ghost cs = fviews(childs@);
    proof {
        lemma_fviews_len(childs@);
    }

    proof {
        lemma_fviews_index(childs@, 0);
        lemma_sheight_index(cs, 0);
    }
    let (t0, flen) = n_symbol_print(childs, 0, left);
    let ghost flen_g = wclamp(spec_width(spec_form_tokens(cs[0], left as nat)));
    let mut r = t0;
    let l1 = left.saturating_add(flen).saturating_add(1);
    let l2 = left.saturating_add(flen).saturating_add(2);
    proof {
        assert(l1 as nat == sadd(sadd(left as nat, flen_g), 1));
        assert(l2 as nat == sadd(sadd(left as nat, flen_g), 2));
        assert(cs.skip(1) =~= cs.drop_first());
    }
    let mut i: usize = 1;
    #[verifier::loop_isolation(false)]
    while i < childs.len()
        invariant
            1 <= i <= childs@.len(),
            spec_seq_tokens(cs, PrintStyle::Standard, left as nat) == tviews(r@)
                + spec_standard_tail(cs.skip(i as int), left as nat, flen_g, i == 1),
            all_flat(tviews(r@)),
        decreases childs@.len() - i,
    {
        proof {
            lemma_fviews_index(childs@, i as int);
            lemma_sheight_index(cs, i as int);
            assert(cs.skip(i as int)[0] == cs[i as int]);
            assert(cs.skip(i as int).drop_first() =~= cs.skip(i + 1));
        }
        let ghost pre = r@;
        if i == 1 {
            r.push(PrintToken::Space);
            proof {
                lemma_tviews_push(pre, PrintToken::Space);
            }
            let sub = lisp_form_print_tokens_aux(&childs[i], l1);
            append_tokens(&mut r, sub);
        } else {
            let nl = indented_nl(l2);
            append_tokens(&mut r, nl);
            let sub = lisp_form_print_tokens_aux(&childs[i], l2);
            append_tokens(&mut r, sub);
        }
        proof {
            assert(spec_seq_tokens(cs, PrintStyle::Standard, left as nat) =~= tviews(r@)
                + spec_standard_tail(cs.skip(i + 1), left as nat, flen_g, false));
            assert(all_flat(tviews(r@)));
        }
        i = i + 1;
    }
    proof {
        assert(cs.skip(childs@.len() as int) =~= Seq::<FormV>::empty());
        assert(spec_seq_tokens(cs, PrintStyle::Standard, left as nat) =~= tviews(r@));
    }
    r
}

/// Children of a compound form under the corresponding style.
#[verifier::rlimit(100)]
fn defn_childs_tokens(childs: &Vec<PrintableLispForm>, left: usize) -> (r: Vec<PrintToken>)
    requires
        childs@.len() > 0,
    ensures
        tviews(r@) == spec_seq_tokens(fviews(childs@), PrintStyle::Defn, left as nat),
        all_flat(tviews(r@)),
    decreases sheight(fviews(childs@)), 0int,
{
    broadcast use lemma_tviews_push, lemma_tviews_len, lemma_tviews_index;

    let ghost cs = fviews(childs@);
    proof {
        lemma_fviews_len(childs@);
    }

    proof {
        lemma_fviews_index(childs@, 0);
        lemma_sheight_index(cs, 0);
    }
    let (t0, alen) = n_symbol_print(childs, 0, left);
    let mut r = t0;
    r.push(PrintToken::Space);
    let ghost alen_g = wclamp(spec_width(spec_form_tokens(cs[0], left as nat)));
    proof {
        assert(cs.skip(1) =~= cs.drop_first());
    }
    if childs.len() > 1 {
        proof {
            lemma_fviews_index(childs@, 1);
            lemma_sheight_index(cs, 1);
        }
        let lb = left.saturating_add(alen).saturating_add(1);
        let (t1, blen) = n_symbol_print(childs, 1, lb);
        let ghost blen_g = wclamp(spec_width(spec_form_tokens(cs[1], lb as nat)));
        append_tokens(&mut r, t1);
        r.push(PrintToken::Space);
        proof {
            assert(lb as nat == sadd(sadd(left as nat, alen_g), 1));
            assert(cs.skip(2) =~= cs.drop_first().drop_first());
            assert(cs.drop_first()[0] == cs[1]);
        }
        if childs.len() > 2 {
            proof {
                lemma_fviews_index(childs@, 2);
                lemma_sheight_index(cs, 2);
            }
            let lc = left.saturating_add(alen).saturating_add(blen).saturating_add(1);
            let t2 = lisp_form_print_tokens_aux(&childs[2], lc);
            append_tokens(&mut r, t2);
            r.push(PrintToken::Space);
            proof {
                assert(lc as nat == sadd(sadd(sadd(left as nat, alen_g), blen_g), 1));
                assert(cs.skip(2)[0] == cs[2]);
                assert(cs.skip(2).drop_first() =~= cs.skip(3));
            }
            let ind = left.saturating_add(INDENT_WIDTH);
            proof {
                assert(ind as nat == sadd(left as nat, INDENT_WIDTH as nat));
                let a = spec_form_tokens(cs[0], left as nat);
                let b = spec_form_tokens(cs[1], lb as nat);
                let c = spec_form_tokens(cs[2], lc as nat);
                assert(spec_defn_c(cs.skip(2), left as nat, alen_g, blen_g) == c + seq![
                    TokenV::Space,
                ] + spec_indent_tail(cs.skip(3), ind as nat));
                assert(spec_defn_b(cs.drop_first(), left as nat, alen_g) == b + seq![
                    TokenV::Space,
                ] + spec_defn_c(cs.skip(2), left as nat, alen_g, blen_g));
                assert(spec_defn_tokens(cs, left as nat) == a + seq![TokenV::Space]
                    + spec_defn_b(cs.drop_first(), left as nat, alen_g));
                assert(spec_seq_tokens(cs, PrintStyle::Defn, left as nat) =~= tviews(r@)
                    + spec_indent_tail(cs.skip(3), ind as nat));
            }
            proof {
                lemma_sheight_skip(cs, 3);
            }
            let tail = indent_tail_tokens(childs, 3, ind);
            let ghost tailv = tviews(tail@);
            let ghost rpre = r@;
            append_tokens(&mut r, tail);
            proof {
                assert(tailv == spec_indent_tail(cs.skip(3), ind as nat));
                assert(tviews(r@) == tviews(rpre) + tailv);
                assert(spec_seq_tokens(cs, PrintStyle::Defn, left as nat) == tviews(rpre) + tailv);
            }
        } else {
            proof {
                assert(cs.skip(2).len() == 0);
                let a = spec_form_tokens(cs[0], left as nat);
                let b = spec_form_tokens(cs[1], lb as nat);
                assert(spec_defn_c(cs.skip(2), left as nat, alen_g, blen_g)
                    == Seq::<TokenV>::empty());
                assert(spec_defn_b(cs.drop_first(), left as nat, alen_g) == b + seq![
                    TokenV::Space,
                ] + spec_defn_c(cs.skip(2), left as nat, alen_g, blen_g));
                assert(spec_defn_tokens(cs, left as nat) == a + seq![TokenV::Space]
                    + spec_defn_b(cs.drop_first(), left as nat, alen_g));
                assert(spec_seq_tokens(cs, PrintStyle::Defn, left as nat) =~= tviews(r@));
            }
        }
    } else {
        proof {
            assert(cs.drop_first().len() == 0);
            let a = spec_form_tokens(cs[0], left as nat);
            assert(spec_defn_b(cs.drop_first(), left as nat, alen_g) == Seq::<TokenV>::empty());
            assert(spec_defn_tokens(cs, left as nat) == a + seq![TokenV::Space]
                + spec_defn_b(cs.drop_first(), left as nat, alen_g));
            assert(spec_seq_tokens(cs, PrintStyle::Defn, left as nat) =~= tviews(r@));
        }
    }
    r
}

/// Children of a compound form under the corresponding style.
#[verifier::rlimit(50)]
fn pairs_childs_tokens(childs: &Vec<PrintableLispForm>, left: usize) -> (r: Vec<PrintToken>)
    requires
        childs@.len() > 0,
    ensures
        tviews(r@) == spec_seq_tokens(fviews(childs@), PrintStyle::PairsBlock, left as nat),
        all_flat(tviews(r@)),
    decreases sheight(fviews(childs@)), 0int,
{
    broadcast use lemma_tviews_push, lemma_tviews_len, lemma_tviews_index;

    let ghost cs = fviews(childs@);
    proof {
        lemma_fviews_len(childs@);
    }

    let mut r: Vec<PrintToken> = Vec::new();
    let mut i: usize = 0;
    let ind = left.saturating_add(INDENT_WIDTH);
    proof {
        assert(ind as nat == sadd(left as nat, INDENT_WIDTH as nat));
        assert(cs.skip(0) =~= cs);
    }
    #[verifier::loop_isolation(false)]
    while i < childs.len()
        invariant
            i <= childs@.len(),
            spec_pairs_tokens(cs, left as nat) == tviews(r@) + spec_pairs_tokens(
                cs.skip(i as int),
                left as nat,
            ),
            i < childs@.len() ==> spec_seq_tokens(cs, PrintStyle::PairsBlock, left as nat)
                == spec_pairs_tokens(cs, left as nat),
            all_flat(tviews(r@)),
        decreases childs@.len() - i,
    {
        proof {
            lemma_fviews_index(childs@, i as int);
            lemma_sheight_index(cs, i as int);
            assert(cs.skip(i as int)[0] == cs[i as int]);
            assert(cs.skip(i as int).drop_first() =~= cs.skip(i + 1));
        }
        let kt = key_print_tokens(&childs[i], left);
        let klen = tokens_width(&kt);
        let ghost klen_g = wclamp(spec_width(spec_key_tokens(cs[i as int], left as nat)));
        append_tokens(&mut r, kt);
        if i + 1 < childs.len() {
            proof {
                lemma_fviews_index(childs@, i + 1);
                lemma_sheight_index(cs, i + 1);
                assert(cs.skip(i + 1)[0] == cs[i + 1]);
                assert(cs.skip(i + 1).drop_first() =~= cs.skip(i + 2));
            }
            let ghost pre = r@;
            r.push(PrintToken::Space);
            proof {
                lemma_tviews_push(pre, PrintToken::Space);
            }
            let lv = left.saturating_add(klen).saturating_add(1);
            proof {
                assert(lv as nat == sadd(sadd(left as nat, klen_g), 1));
            }
            let vt = lisp_form_print_tokens_aux(&childs[i + 1], lv);
            append_tokens(&mut r, vt);
            if i + 2 < childs.len() {
                let nl = indented_nl(ind);
                append_tokens(&mut r, nl);
            }
            proof {
                assert(spec_pairs_tokens(cs, left as nat) =~= tviews(r@)
                    + spec_pairs_tokens(cs.skip(i + 2), left as nat));
            }
            i = i + 2;
        } else {
            proof {
                assert(cs.skip(i + 1).len() == 0);
                assert(spec_pairs_tokens(cs, left as nat) =~= tviews(r@)
                    + spec_pairs_tokens(cs.skip(i + 1), left as nat));
            }
            i = i + 1;
        }
    }
    proof {
        assert(cs.skip(childs@.len() as int) =~= Seq::<FormV>::empty());
        assert(spec_seq_tokens(cs, PrintStyle::PairsBlock, left as nat) =~= tviews(r@));
    }
    r
}

/// Children of a compound form under the corresponding style.
#[verifier::rlimit(50)]
fn binding_childs_tokens(childs: &Vec<PrintableLispForm>, left: usize) -> (r: Vec<PrintToken>)
    requires
        childs@.len() > 0,
    ensures
        tviews(r@) == spec_seq_tokens(fviews(childs@), PrintStyle::Binding, left as nat),
        all_flat(tviews(r@)),
    decreases sheight(fviews(childs@)), 0int,
{
    broadcast use lemma_tviews_push, lemma_tviews_len, lemma_tviews_index;

    let ghost cs = fviews(childs@);
    proof {
        lemma_fviews_len(childs@);
    }

    proof {
        lemma_fviews_index(childs@, 0);
        lemma_sheight_index(cs, 0);
    }
    let (t0, slen) = n_symbol_print(childs, 0, left);
    let ghost slen_g = wclamp(spec_width(spec_form_tokens(cs[0], left as nat)));
    let mut r = t0;
    r.push(PrintToken::Space);
    proof {
        assert(cs.skip(1) =~= cs.drop_first());
    }
    if childs.len() > 1 {
        proof {
            lemma_fviews_index(childs@, 1);
            lemma_sheight_index(cs, 1);
            assert(cs.drop_first()[0] == cs[1]);
            assert(cs.skip(2) =~= cs.drop_first().drop_first());
        }
        let lb = left.saturating_add(slen).saturating_add(2);
        proof {
            assert(lb as nat == sadd(sadd(left as nat, slen_g), 2));
        }
        let is_vec = match &childs[1] {
            PrintableLispForm::Vector { childs: bc, style: bs, coord: bco } => true,
            _ => false,
        };
        let bt = if is_vec {
            styled_form_tokens(&childs[1], PrintStyle::PairsBlock, lb)
        } else {
            lisp_form_print_tokens_aux(&childs[1], lb)
        };
        append_tokens(&mut r, bt);
        r.push(PrintToken::Space);
        let ind = left.saturating_add(INDENT_WIDTH);
        proof {
            assert(ind as nat == sadd(left as nat, INDENT_WIDTH as nat));
        }
        proof {
            lemma_sheight_skip(cs, 2);
        }
        let tail = indent_tail_tokens(childs, 2, ind);
        append_tokens(&mut r, tail);
        proof {
            assert(spec_seq_tokens(cs, PrintStyle::Binding, left as nat) =~= tviews(r@));
        }
    } else {
        proof {
            assert(cs.drop_first().len() == 0);
            assert(spec_seq_tokens(cs, PrintStyle::Binding, left as nat) =~= tviews(r@));
        }
    }
    r
}

/// Children of a compound form joined on one line.
#[verifier::rlimit(50)]
fn linear_childs_tokens(childs: &Vec<PrintableLispForm>, style: PrintStyle, left: usize) -> (r:
    Vec<PrintToken>)
    requires
        childs@.len() > 0,
        style == PrintStyle::Unstyled || style == PrintStyle::Linear,
    ensures
        tviews(r@) == spec_seq_tokens(fviews(childs@), style, left as nat),
        all_flat(tviews(r@)),
    decreases sheight(fviews(childs@)), 0int,
{
    broadcast use lemma_tviews_push, lemma_tviews_len, lemma_tviews_index;

    let ghost cs = fviews(childs@);
    proof {
        lemma_fviews_len(childs@);
    }

    proof {
        lemma_fviews_index(childs@, 0);
        lemma_sheight_index(cs, 0);
    }
    let mut r = lisp_form_print_tokens_aux(&childs[0], left);
    proof {
        assert(cs.skip(1) =~= cs.drop_first());
    }
    let mut i: usize = 1;
    #[verifier::loop_isolation(false)]
    while i < childs.len()
        invariant
            1 <= i <= childs@.len(),
            spec_seq_tokens(cs, style, left as nat) == tviews(r@) + spec_linear_tail(
                cs.skip(i as int),
                left as nat,
            ),
            all_flat(tviews(r@)),
            style == PrintStyle::Unstyled || style == PrintStyle::Linear,
        decreases childs@.len() - i,
    {
        proof {
            lemma_fviews_index(childs@, i as int);
            lemma_sheight_index(cs, i as int);
            assert(cs.skip(i as int)[0] == cs[i as int]);
            assert(cs.skip(i as int).drop_first() =~= cs.skip(i + 1));
        }
        let ghost pre = r@;
        r.push(PrintToken::Space);
        proof {
            lemma_tviews_push(pre, PrintToken::Space);
        }
        let sub = lisp_form_print_tokens_aux(&childs[i], left);
        append_tokens(&mut r, sub);
        proof {
            assert(spec_seq_tokens(cs, style, left as nat) =~= tviews(r@)
                + spec_linear_tail(cs.skip(i + 1), left as nat));
        }
        i = i + 1;
    }
    proof {
        assert(cs.skip(childs@.len() as int) =~= Seq::<FormV>::empty());
        assert(spec_seq_tokens(cs, style, left as nat) =~= tviews(r@));
    }
    r
}

/// The children of a compound form, laid out under `style`.
fn childs_print_tokens(childs: &Vec<PrintableLispForm>, style: PrintStyle, left: usize) -> (r:
    Vec<PrintToken>)
    ensures
        tviews(r@) == spec_seq_tokens(fviews(childs@), style, left as nat),
        all_flat(tviews(r@)),
    decreases sheight(fviews(childs@)), 1int,
{
    if childs.len() == 0 {
        proof {
            lemma_fviews_len(childs@);
        }
        let r: Vec<PrintToken> = Vec::new();
        proof {
            assert(tviews(r@) =~= Seq::<TokenV>::empty());
        }
        return r;
    }
    proof {
        lemma_fviews_len(childs@);
    }
    match style {
        PrintStyle::Standard => standard_childs_tokens(childs, left),
        PrintStyle::Defn => defn_childs_tokens(childs, left),
        PrintStyle::PairsBlock => pairs_childs_tokens(childs, left),
        PrintStyle::Binding => binding_childs_tokens(childs, left),
        PrintStyle::Unstyled => linear_childs_tokens(childs, style, left),
        PrintStyle::Linear => linear_childs_tokens(childs, style, left),
    }
}

/// The flat print tokens of one form, laid out from column zero.
pub fn lisp_form_print_tokens(pform: &PrintableLispForm) -> (r: Vec<PrintToken>)
    ensures
        tviews(r@) == spec_form_tokens(fview(*pform), 0),
        all_flat(tviews(r@)),
{
    let toks = lisp_form_print_tokens_aux(pform, 0);
    let r = flatten_print_tokens(&toks);
    proof {
        lemma_flatten_flat_id(tviews(toks@));
    }
    r
}

/// The style the head symbol of a list asks for: `defn` lays the list
/// out as a definition, `let` and `binding` as a binding form; any other
/// head leaves the list unstyled.
pub open spec fn head_style(text: Seq<char>) -> PrintStyle {
    if text == "defn"@ {
        PrintStyle::Defn
    } else if text == "let"@ || text == "binding"@ {
        PrintStyle::Binding
    } else {
        PrintStyle::Unstyled
    }
}

/// Deep style assignment: every list whose first child is an atom takes
/// the style its head symbol asks for; all other styles are kept.
pub open spec fn spec_symb_style(f: FormV) -> FormV
    decreases fheight(f), 1int,
{
    match f {
        FormV::List { childs, style, coord } => {
            let st = if childs.len() > 0 {
                match childs[0] {
                    FormV::Atomic { text, coord: c2 } => head_style(text),
                    _ => style,
                }
            } else {
                style
            };
            FormV::List { childs: spec_symb_styles(childs), style: st, coord }
        },
        FormV::Vector { childs, style, coord } => FormV::Vector {
            childs: spec_symb_styles(childs),
            style,
            coord,
        },
        FormV::SetForm { childs, style, coord } => FormV::SetForm {
            childs: spec_symb_styles(childs),
            style,
            coord,
        },
        FormV::MapForm { keys, vals, style, coord } => FormV::MapForm {
            keys: spec_symb_styles(keys),
            vals: spec_symb_styles(vals),
            style,
            coord,
        },
        FormV::Tagged { tag, form, coord } => FormV::Tagged {
            tag,
            form: Box::new(spec_symb_style(*form)),
            coord,
        },
        _ => f,
    }
}

/// Deep style assignment over a sequence of children.
pub open spec fn spec_symb_styles(s: Seq<FormV>) -> Seq<FormV>
    decreases sheight(s), 0int,
{
    if s.len() == 0 {
        Seq::empty()
    } else {
        seq![spec_symb_style(s[0])] + spec_symb_styles(s.drop_first())
    }
}

/// How many lists below `f` (including `f`) still carry the `Unstyled`
/// style; the width-fitting loop ends when this reaches zero or the
/// layout fits.
pub open spec fn count_unstyled(f: FormV) -> nat
    decreases fheight(f), 1int,
{
    match f {
        FormV::List { childs, style, coord } => (if style is Unstyled {
            1nat
        } else {
            0nat
        }) + count_unstyled_seq(childs),
        FormV::Vector { childs, style, coord } => count_unstyled_seq(childs),
        FormV::SetForm { childs, style, coord } => count_unstyled_seq(childs),
        FormV::MapForm { keys, vals, style, coord } => count_unstyled_seq(keys)
            + count_unstyled_seq(vals),
        FormV::Tagged { tag, form, coord } => count_unstyled(*form),
        _ => 0,
    }
}

/// `count_unstyled` summed over a sequence of children.
pub open spec fn count_unstyled_seq(s: Seq<FormV>) -> nat
    decreases sheight(s), 0int,
{
    if s.len() == 0 {
        0
    } else {
        count_unstyled(s[0]) + count_unstyled_seq(s.drop_first())
    }
}

/// The first unstyled list below `f` in pre-order, upgraded to the
/// `Standard` style; the flag reports whether one was found.
pub open spec fn spec_next_unstyled(f: FormV) -> (FormV, bool)
    decreases fheight(f), 1int,
{
    match f {
        FormV::List { childs, style, coord } => {
            if style is Unstyled {
                (FormV::List { childs, style: PrintStyle::Standard, coord }, true)
            } else {
                let (cs2, b) = spec_next_unstyled_seq(childs);
                (FormV::List { childs: cs2, style, coord }, b)
            }
        },
        FormV::Vector { childs, style, coord } => {
            let (cs2, b) = spec_next_unstyled_seq(childs);
            (FormV::Vector { childs: cs2, style, coord }, b)
        },
        FormV::SetForm { childs, style, coord } => {
            let (cs2, b) = spec_next_unstyled_seq(childs);
            (FormV::SetForm { childs: cs2, style, coord }, b)
        },
        FormV::MapForm { keys, vals, style, coord } => {
            let (k2, bk) = spec_next_unstyled_seq(keys);
            if bk {
                (FormV::MapForm { keys: k2, vals, style, coord }, true)
            } else {
                let (v2, bv) = spec_next_unstyled_seq(vals);
                (FormV::MapForm { keys, vals: v2, style, coord }, bv)
            }
        },
        FormV::Tagged { tag, form, coord } => {
            let (f2, b) = spec_next_unstyled(*form);
            (FormV::Tagged { tag, form: Box::new(f2), coord }, b)
        },
        _ => (f, false),
    }
}

/// The first unstyled list in a sequence of children, upgraded.
pub open spec fn spec_next_unstyled_seq(s: Seq<FormV>) -> (Seq<FormV>, bool)
    decreases sheight(s), 0int,
{
    if s.len() == 0 {
        (s, false)
    } else {
        let (f0, b) = spec_next_unstyled(s[0]);
        if b {
            (seq![f0] + s.drop_first(), true)
        } else {
            let (r, b2) = spec_next_unstyled_seq(s.drop_first());
            (seq![s[0]] + r, b2)
        }
    }
}

/// Upgrading the next unstyled list lowers the count by one; when no
/// list is found the form is unchanged.
pub proof fn lemma_next_unstyled_count(f: FormV)
    ensures
        spec_next_unstyled(f).1 ==> count_unstyled(spec_next_unstyled(f).0) + 1 == count_unstyled(
            f,
        ),
        !spec_next_unstyled(f).1 ==> spec_next_unstyled(f).0 == f,
    decreases fheight(f), 1int,
{
    match f {
        FormV::List { childs, style, coord } => {
            if !(style is Unstyled) {
                lemma_next_unstyled_count_seq(childs);
            }
        },
        FormV::Vector { childs, style, coord } => {
            lemma_next_unstyled_count_seq(childs);
        },
        FormV::SetForm { childs, style, coord } => {
            lemma_next_unstyled_count_seq(childs);
        },
        FormV::MapForm { keys, vals, style, coord } => {
            lemma_next_unstyled_count_seq(keys);
            lemma_next_unstyled_count_seq(vals);
        },
        FormV::Tagged { tag, form, coord } => {
            lemma_next_unstyled_count(*form);
            if !spec_next_unstyled(*form).1 {
                assert(spec_next_unstyled(f).0 =~= f);
            }
        },
        _ => {},
    }
}

/// Companion to `lemma_next_unstyled_count` for child sequences.
pub proof fn lemma_next_unstyled_count_seq(s: Seq<FormV>)
    ensures
        spec_next_unstyled_seq(s).1 ==> count_unstyled_seq(spec_next_unstyled_seq(s).0) + 1
            == count_unstyled_seq(s),
        !spec_next_unstyled_seq(s).1 ==> spec_next_unstyled_seq(s).0 == s,
        spec_next_unstyled_seq(s).0.len() == s.len(),
    decreases sheight(s), 0int,
{
    if s.len() > 0 {
        lemma_next_unstyled_count(s[0]);
        lemma_next_unstyled_count_seq(s.drop_first());
        let (f0, b) = spec_next_unstyled(s[0]);
        if b {
            let r = seq![f0] + s.drop_first();
            assert(r[0] == f0);
            assert(r.drop_first() =~= s.drop_first());
            assert(count_unstyled_seq(r) == count_unstyled(f0) + count_unstyled_seq(
                s.drop_first(),
            ));
        } else {
            let (rr, b2) = spec_next_unstyled_seq(s.drop_first());
            let r = seq![s[0]] + rr;
            assert(r[0] == s[0]);
            assert(r.drop_first() =~= rr);
            if b2 {
                assert(count_unstyled_seq(r) == count_unstyled(s[0]) + count_unstyled_seq(rr));
            } else {
                assert(spec_next_unstyled_seq(s).0 =~= s);
            }
        }
    }
}

/// The result of the width-fitting loop: styles are upgraded, one
/// unstyled list at a time in pre-order, until the layout fits within
/// `width` or no unstyled list remains.
pub open spec fn spec_style_fix(f: FormV, width: nat) -> FormV
    decreases count_unstyled(f),
    via spec_style_fix_decreases
{
    if wclamp(spec_width(spec_form_tokens(f, 0))) <= width {
        f
    } else {
        let (g, b) = spec_next_unstyled(f);
        if b {
            spec_style_fix(g, width)
        } else {
            f
        }
    }
}

#[via_fn]
proof fn spec_style_fix_decreases(f: FormV, width: nat) {
    lemma_next_unstyled_count(f);
}

/// Concatenating form vectors concatenates their models.
pub proof fn lemma_fviews_concat(a: Seq<PrintableLispForm>, b: Seq<PrintableLispForm>)
    ensures
        fviews(a + b) == fviews(a) + fviews(b),
{
    broadcast use lemma_fviews_len, lemma_fviews_index;

    assert forall|i: int| 0 <= i < a.len() + b.len() implies fviews(a + b)[i] == (fviews(a)
        + fviews(b))[i] by {
        if i < a.len() {
            assert((a + b)[i] == a[i]);
        } else {
            assert((a + b)[i] == b[i - a.len()]);
        }
    }
    assert(fviews(a + b) =~= fviews(a) + fviews(b));
}

/// Appending a form appends its styled model.
pub proof fn lemma_symb_styles_push(s: Seq<FormV>, x: FormV)
    ensures
        spec_symb_styles(s.push(x)) == spec_symb_styles(s).push(spec_symb_style(x)),
    decreases s,
{
    if s.len() == 0 {
        assert(s.push(x)[0] == x);
        assert(s.push(x).drop_first() =~= Seq::<FormV>::empty());
        assert(spec_symb_styles(s.push(x).drop_first()) == Seq::<FormV>::empty());
        assert(spec_symb_styles(s.push(x)) == seq![spec_symb_style(x)] + Seq::<FormV>::empty());
        assert(seq![spec_symb_style(x)] + Seq::<FormV>::empty() =~= seq![spec_symb_style(x)]);
        assert(spec_symb_styles(s) == Seq::<FormV>::empty());
        assert(spec_symb_styles(s).push(spec_symb_style(x)) =~= seq![spec_symb_style(x)]);
    } else {
        assert(s.push(x).drop_first() =~= s.drop_first().push(x));
        lemma_symb_styles_push(s.drop_first(), x);
        assert(s.push(x)[0] == s[0]);
        assert(spec_symb_styles(s.push(x)) =~= spec_symb_styles(s).push(spec_symb_style(x)));
    }
}

/// Deep style assignment over an owned vector of children.
fn style_deep_vec(v: Vec<PrintableLispForm>) -> (r: Vec<PrintableLispForm>)
    ensures
        fviews(r@) == spec_symb_styles(fviews(v@)),
    decreases sheight(fviews(v@)), 0int,
{
    let ghost cs = fviews(v@);
    proof {
        lemma_fviews_len(v@);
        assert(cs.skip(0) =~= cs);
        assert(cs.take(0) =~= Seq::<FormV>::empty());
        assert(spec_symb_styles(cs.take(0)) =~= Seq::<FormV>::empty());
        assert(fviews(Seq::<PrintableLispForm>::empty()) == Seq::<FormV>::empty());
    }
    let mut rem = v;
    let mut out: Vec<PrintableLispForm> = Vec::new();
    #[verifier::loop_isolation(false)]
    while rem.len() > 0
        invariant
            out@.len() + rem@.len() == cs.len(),
            fviews(rem@) == cs.skip(out@.len() as int),
            fviews(out@) == spec_symb_styles(cs.take(out@.len() as int)),
        decreases rem@.len(),
    {
        let ghost i = out@.len() as int;
        proof {
            lemma_fviews_len(rem@);
            lemma_fviews_index(rem@, 0);
            lemma_sheight_index(cs, i);
            lemma_sheight_skip(cs, i);
            assert(cs.skip(i)[0] == cs[i]);
            assert(fview(rem@[0]) == cs[i]);
        }
        let ghost rem0 = rem@;
        let c = rem.remove(0);
        proof {
            assert(rem@ =~= rem0.drop_first());
            lemma_fviews_len(rem@);
            assert forall|j: int| 0 <= j < rem@.len() implies #[trigger] fviews(rem@)[j] == cs.skip(
                i + 1,
            )[j] by {
                lemma_fviews_index(rem@, j);
                lemma_fviews_index(rem0, j + 1);
                assert(rem@[j] == rem0[j + 1]);
                assert(fviews(rem0)[j + 1] == cs.skip(i)[j + 1]);
            }
            assert(fviews(rem@) =~= cs.skip(i + 1));
        }
        let styled = style_deep_owned(c);
        let ghost outpre = out@;
        out.push(styled);
        proof {
            lemma_fviews_push(outpre, styled);
            assert(cs.take(i + 1) =~= cs.take(i).push(cs[i]));
            lemma_symb_styles_push(cs.take(i), cs[i]);
        }
    }
    proof {
        assert(cs.take(cs.len() as int) =~= cs);
    }
    out
}

/// Deep style assignment over one owned form.
fn style_deep_owned(f: PrintableLispForm) -> (r: PrintableLispForm)
    ensures
        fview(r) == spec_symb_style(fview(f)),
    decreases fheight(fview(f)), 1int,
{
    proof {
        reveal_strlit("defn");
        reveal_strlit("let");
        reveal_strlit("binding");
    }
    match f {
        PrintableLispForm::List { childs, style, coord } => {
            proof {
                lemma_fviews_len(childs@);
            }
            let st = if childs.len() > 0 {
                proof {
                    lemma_fviews_index(childs@, 0);
                }
                match &childs[0] {
                    PrintableLispForm::Atomic(sym, c2) => {
                        if crate::lisp_reader::str_eq(sym.as_str(), "defn") {
                            PrintStyle::Defn
                        } else if crate::lisp_reader::str_eq(sym.as_str(), "let")
                            || crate::lisp_reader::str_eq(sym.as_str(), "binding") {
                            PrintStyle::Binding
                        } else {
                            PrintStyle::Unstyled
                        }
                    },
                    _ => style,
                }
            } else {
                style
            };
            let cs2 = style_deep_vec(childs);
            PrintableLispForm::List { childs: cs2, style: st, coord }
        },
        PrintableLispForm::Vector { childs, style, coord } => {
            let cs2 = style_deep_vec(childs);
            PrintableLispForm::Vector { childs: cs2, style, coord }
        },
        PrintableLispForm::SetForm { childs, style, coord } => {
            let cs2 = style_deep_vec(childs);
            PrintableLispForm::SetForm { childs: cs2, style, coord }
        },
        PrintableLispForm::MapForm { keys, vals, style, coord } => {
            let k2 = style_deep_vec(keys);
            let v2 = style_deep_vec(vals);
            PrintableLispForm::MapForm { keys: k2, vals: v2, style, coord }
        },
        PrintableLispForm::Tagged { tag, form, coord } => {
            let f2 = style_deep_owned(*form);
            PrintableLispForm::Tagged { tag, form: Box::new(f2), coord }
        },
        other => other,
    }
}

/// Deep style assignment, in place: every list whose head is an atom
/// takes the style that symbol asks for.
pub fn symb_style_lisp_form_deep(pform: &mut PrintableLispForm)
    ensures
        fview(*final(pform)) == spec_symb_style(fview(*old(pform))),
{
    let mut tmp = PrintableLispForm::String(String::new());
    core::mem::swap(pform, &mut tmp);
    let styled = style_deep_owned(tmp);
    *pform = styled;
}

/// The first unstyled list in an owned vector of children, upgraded.
fn next_unstyled_vec(v: Vec<PrintableLispForm>) -> (r: (Vec<PrintableLispForm>, bool))
    ensures
        fviews(r.0@) == spec_next_unstyled_seq(fviews(v@)).0,
        r.1 == spec_next_unstyled_seq(fviews(v@)).1,
    decreases sheight(fviews(v@)), 0int,
{
    let ghost cs = fviews(v@);
    proof {
        lemma_fviews_len(v@);
        assert(cs.skip(0) =~= cs);
        assert(cs.take(0) =~= Seq::<FormV>::empty());
        assert(fviews(Seq::<PrintableLispForm>::empty()) == Seq::<FormV>::empty());
        assert(Seq::<FormV>::empty() + spec_next_unstyled_seq(cs).0 =~= spec_next_unstyled_seq(
            cs,
        ).0);
    }
    let mut rem = v;
    let mut out: Vec<PrintableLispForm> = Vec::new();
    #[verifier::loop_isolation(false)]
    while rem.len() > 0
        invariant
            out@.len() + rem@.len() == cs.len(),
            fviews(rem@) == cs.skip(out@.len() as int),
            fviews(out@) == cs.take(out@.len() as int),
            spec_next_unstyled_seq(cs).1 == spec_next_unstyled_seq(
                cs.skip(out@.len() as int),
            ).1,
            spec_next_unstyled_seq(cs).0 == fviews(out@) + spec_next_unstyled_seq(
                cs.skip(out@.len() as int),
            ).0,
        decreases rem@.len(),
    {
        let ghost i = out@.len() as int;
        proof {
            lemma_fviews_len(rem@);
            lemma_fviews_index(rem@, 0);
            lemma_sheight_index(cs, i);
            assert(cs.skip(i)[0] == cs[i]);
            assert(fview(rem@[0]) == cs[i]);
        }
        let ghost rem0 = rem@;
        let c = rem.remove(0);
        proof {
            assert(rem@ =~= rem0.drop_first());
            lemma_fviews_len(rem@);
            assert forall|j: int| 0 <= j < rem@.len() implies #[trigger] fviews(rem@)[j] == cs.skip(
                i + 1,
            )[j] by {
                lemma_fviews_index(rem@, j);
                lemma_fviews_index(rem0, j + 1);
                assert(rem@[j] == rem0[j + 1]);
                assert(fviews(rem0)[j + 1] == cs.skip(i)[j + 1]);
            }
            assert(fviews(rem@) =~= cs.skip(i + 1));
            assert(cs.skip(i).drop_first() =~= cs.skip(i + 1));
        }
        let (c2, b) = next_unstyled_owned(c);
        let ghost outpre = out@;
        out.push(c2);
        proof {
            lemma_fviews_push(outpre, c2);
            lemma_next_unstyled_count(cs[i]);
        }
        if b {
            let ghost outmid = out@;
            let mut tail = rem;
            append_forms(&mut out, tail);
            proof {
                assert(spec_next_unstyled_seq(cs.skip(i)).0 =~= seq![
                    spec_next_unstyled(cs[i]).0,
                ] + cs.skip(i + 1));
                assert(fviews(out@) =~= spec_next_unstyled_seq(cs).0);
            }
            return (out, true);
        }
        proof {
            assert(fview(c2) == cs[i]);
            assert(fviews(out@) =~= cs.take(i + 1));
            assert(spec_next_unstyled_seq(cs.skip(i)).0 =~= seq![cs[i]]
                + spec_next_unstyled_seq(cs.skip(i + 1)).0);
            assert(spec_next_unstyled_seq(cs).0 =~= fviews(out@) + spec_next_unstyled_seq(
                cs.skip(i + 1),
            ).0);
        }
    }
    proof {
        assert(cs.skip(cs.len() as int) =~= Seq::<FormV>::empty());
        assert(fviews(out@) =~= spec_next_unstyled_seq(cs).0);
    }
    (out, false)
}

/// Moves the forms of `src` to the end of `dst`.
fn append_forms(dst: &mut Vec<PrintableLispForm>, src: Vec<PrintableLispForm>)
    ensures
        fviews(final(dst)@) == fviews(old(dst)@) + fviews(src@),
{
    let ghost a = old(dst)@;
    let ghost b = src@;
    let mut s = src;
    dst.append(&mut s);
    proof {
        lemma_fviews_concat(a, b);
    }
}

/// The first unstyled list below one owned form, upgraded.
fn next_unstyled_owned(f: PrintableLispForm) -> (r: (PrintableLispForm, bool))
    ensures
        fview(r.0) == spec_next_unstyled(fview(f)).0,
        r.1 == spec_next_unstyled(fview(f)).1,
    decreases fheight(fview(f)), 1int,
{
    match f {
        PrintableLispForm::List { childs, style, coord } => {
            let unstyled = match style {
                PrintStyle::Unstyled => true,
                _ => false,
            };
            if unstyled {
                (
                    PrintableLispForm::List { childs, style: PrintStyle::Standard, coord },
                    true,
                )
            } else {
                let (cs2, b) = next_unstyled_vec(childs);
                (PrintableLispForm::List { childs: cs2, style, coord }, b)
            }
        },
        PrintableLispForm::Vector { childs, style, coord } => {
            let (cs2, b) = next_unstyled_vec(childs);
            (PrintableLispForm::Vector { childs: cs2, style, coord }, b)
        },
        PrintableLispForm::SetForm { childs, style, coord } => {
            let (cs2, b) = next_unstyled_vec(childs);
            (PrintableLispForm::SetForm { childs: cs2, style, coord }, b)
        },
        PrintableLispForm::MapForm { keys, vals, style, coord } => {
            proof {
                lemma_next_unstyled_count_seq(fviews(keys@));
            }
            let (k2, bk) = next_unstyled_vec(keys);
            if bk {
                (PrintableLispForm::MapForm { keys: k2, vals, style, coord }, true)
            } else {
                let (v2, bv) = next_unstyled_vec(vals);
                (PrintableLispForm::MapForm { keys: k2, vals: v2, style, coord }, bv)
            }
        },
        PrintableLispForm::Tagged { tag, form, coord } => {
            let (f2, b) = next_unstyled_owned(*form);
            (PrintableLispForm::Tagged { tag, form: Box::new(f2), coord }, b)
        },
        other => (other, false),
    }
}

/// Upgrades the next unstyled list (in pre-order) to the `Standard`
/// style, in place; reports whether one was found.
pub fn standard_style_next_unstyled(pform: &mut PrintableLispForm) -> (r: bool)
    ensures
        fview(*final(pform)) == spec_next_unstyled(fview(*old(pform))).0,
        r == spec_next_unstyled(fview(*old(pform))).1,
{
    let mut tmp = PrintableLispForm::String(String::new());
    core::mem::swap(pform, &mut tmp);
    let (g, b) = next_unstyled_owned(tmp);
    *pform = g;
    b
}

/// Upgrades the next unstyled list among `childs`, in place; reports
/// whether one was found.
pub fn standard_style_next_unstyled_childs(childs: &mut Vec<PrintableLispForm>) -> (r: bool)
    ensures
        fviews(final(childs)@) == spec_next_unstyled_seq(fviews(old(childs)@)).0,
        r == spec_next_unstyled_seq(fviews(old(childs)@)).1,
{
    let mut tmp: Vec<PrintableLispForm> = Vec::new();
    core::mem::swap(childs, &mut tmp);
    let (g, b) = next_unstyled_vec(tmp);
    *childs = g;
    b
}

/// Lays a form out to fit `width` columns: styles are assigned from head
/// symbols; while a line is still too wide and an unstyled list remains,
/// the next one (in pre-order) is upgraded to the `Standard` style. The
/// tokens of the final layout are returned, flat; they may exceed the
/// width only when no unstyled list is left.
pub fn style_lisp_form(pform: &mut PrintableLispForm, width: usize) -> (r: Vec<PrintToken>)
    ensures
        fview(*final(pform)) == spec_style_fix(
            spec_symb_style(fview(*old(pform))),
            width as nat,
        ),
        tviews(r@) == spec_form_tokens(fview(*final(pform)), 0),
        all_flat(tviews(r@)),
        wclamp(spec_width(tviews(r@))) <= width || !spec_next_unstyled(fview(*final(pform))).1,
{
    symb_style_lisp_form_deep(pform);
    let ghost target = spec_style_fix(fview(*pform), width as nat);
    #[verifier::loop_isolation(false)]
    loop
        invariant
            spec_style_fix(fview(*pform), width as nat) == target,
        decreases count_unstyled(fview(*pform)),
    {
        let curr_toks = lisp_form_print_tokens(pform);
        let curr_width = tokens_width(&curr_toks);
        if curr_width <= width {
            proof {
                assert(spec_style_fix(fview(*pform), width as nat) == fview(*pform));
            }
            return curr_toks;
        } else {
            proof {
                lemma_next_unstyled_count(fview(*pform));
            }
            let shorter = standard_style_next_unstyled(pform);
            if !shorter {
                proof {
                    assert(spec_style_fix(fview(*pform), width as nat) == fview(*pform));
                }
                return curr_toks;
            }
        }
    }
}

} // verus!
