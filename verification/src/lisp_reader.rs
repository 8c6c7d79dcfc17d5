//! Reader for Lisp source forms.
//!
//! `read_str` parses the text of one form into a coordinate-tagged AST.
//! Every compound node and every atom carries the child-index path from
//! the root of the form to itself, assigned in a single left-to-right pass.

use vstd::prelude::*;

verus! {

/// Layout style of a compound form, chosen by the pretty printer.
#[derive(Debug, Clone, Copy, PartialEq, Eq, Structural)]
pub enum PrintStyle {
    PairsBlock,
    Binding,
    Defn,
    Standard,
    Linear,
    Unstyled,
}

/// A parsed source form. Compound variants carry the style the pretty
/// printer has assigned so far; `Unstyled` is the initial state.
#[derive(Debug, PartialEq)]
pub enum PrintableLispForm {
    Atomic(String, Vec<u16>),
    String(String),
    List { childs: Vec<PrintableLispForm>, style: PrintStyle, coord: Vec<u16> },
    Vector { childs: Vec<PrintableLispForm>, style: PrintStyle, coord: Vec<u16> },
    SetForm { childs: Vec<PrintableLispForm>, style: PrintStyle, coord: Vec<u16> },
    MapForm {
        keys: Vec<PrintableLispForm>,
        vals: Vec<PrintableLispForm>,
        style: PrintStyle,
        coord: Vec<u16>,
    },
    Regexp(String),
    Tagged { tag: String, form: Box<PrintableLispForm>, coord: Vec<u16> },
}

/// Mathematical model of a parsed form: the same tree with sequences in
/// place of vectors and character sequences in place of strings.
#[verifier::ext_equal]
pub enum FormV {
    Atomic { text: Seq<char>, coord: Seq<u16> },
    StrLit { text: Seq<char> },
    List { childs: Seq<FormV>, style: PrintStyle, coord: Seq<u16> },
    Vector { childs: Seq<FormV>, style: PrintStyle, coord: Seq<u16> },
    SetForm { childs: Seq<FormV>, style: PrintStyle, coord: Seq<u16> },
    MapForm { keys: Seq<FormV>, vals: Seq<FormV>, style: PrintStyle, coord: Seq<u16> },
    Regexp { text: Seq<char> },
    Tagged { tag: Seq<char>, form: Box<FormV>, coord: Seq<u16> },
}

/// The model of a parsed form.
pub open spec fn fview(f: PrintableLispForm) -> FormV
    decreases f,
{
    match f {
        PrintableLispForm::Atomic(s, c) => FormV::Atomic { text: s@, coord: c@ },
        PrintableLispForm::String(s) => FormV::StrLit { text: s@ },
        PrintableLispForm::List { childs, style, coord } => FormV::List {
            childs: fviews(childs@),
            style,
            coord: coord@,
        },
        PrintableLispForm::Vector { childs, style, coord } => FormV::Vector {
            childs: fviews(childs@),
            style,
            coord: coord@,
        },
        PrintableLispForm::SetForm { childs, style, coord } => FormV::SetForm {
            childs: fviews(childs@),
            style,
            coord: coord@,
        },
        PrintableLispForm::MapForm { keys, vals, style, coord } => FormV::MapForm {
            keys: fviews(keys@),
            vals: fviews(vals@),
            style,
            coord: coord@,
        },
        PrintableLispForm::Regexp(s) => FormV::Regexp { text: s@ },
        PrintableLispForm::Tagged { tag, form, coord } => FormV::Tagged {
            tag: tag@,
            form: Box::new(fview(*form)),
            coord: coord@,
        },
    }
}

/// The models of a sequence of forms.
pub open spec fn fviews(s: Seq<PrintableLispForm>) -> Seq<FormV>
    decreases s,
{
    if s.len() == 0 {
        Seq::empty()
    } else {
        seq![fview(s[0])] + fviews(s.drop_first())
    }
}

/// `fviews` maps `fview` over the sequence, element by element.
pub broadcast proof fn lemma_fviews_len(s: Seq<PrintableLispForm>)
    ensures
        (#[trigger] fviews(s)).len() == s.len(),
    decreases s,
{
    if s.len() > 0 {
        lemma_fviews_len(s.drop_first());
    }
}

/// The model of the `i`th form is the `i`th model.
pub broadcast proof fn lemma_fviews_index(s: Seq<PrintableLispForm>, i: int)
    requires
        0 <= i < s.len(),
    ensures
        #[trigger] fviews(s)[i] == fview(s[i]),
    decreases s,
{
    lemma_fviews_len(s);
    if i > 0 {
        lemma_fviews_index(s.drop_first(), i - 1);
    }
}

/// Characters that end an atomic token and separate sibling forms.
pub open spec fn is_stop_char(c: char) -> bool {
    c == ' ' || c == ',' || c == ')' || c == '}' || c == ']' || c == '(' || c == '{' || c == '['
}

/// First position at or after `j` that ends an atomic token started earlier.
pub open spec fn atom_end(s: Seq<char>, j: int) -> int
    decreases s.len() - j,
{
    if j < 0 {
        j
    } else if j >= s.len() || is_stop_char(s[j]) {
        j
    } else {
        atom_end(s, j + 1)
    }
}

/// Position of the first double quote at or after `j`, if any.
pub open spec fn string_end(s: Seq<char>, j: int) -> Option<int>
    decreases s.len() - j,
{
    if j < 0 || j >= s.len() {
        None
    } else if s[j] == '"' {
        Some(j)
    } else {
        string_end(s, j + 1)
    }
}

/// Position after the separators that may follow a sibling form:
/// first a single comma, then a single space, each optional.
pub open spec fn sep_skip(s: Seq<char>, j: int) -> int {
    let j1 = if 0 <= j < s.len() && s[j] == ',' {
        j + 1
    } else {
        j
    };
    if 0 <= j1 < s.len() && s[j1] == ' ' {
        j1 + 1
    } else {
        j1
    }
}

/// Clamps a claimed next position into `(i, n]`, so that the parser's
/// termination is structural. `lemma_read_progress` shows the clamp
/// never binds on the positions the parser actually returns.
pub open spec fn advance(i: int, j: int, n: int) -> int {
    if j <= i {
        i + 1
    } else if j > n {
        n
    } else {
        j
    }
}

/// Splits the flat child sequence of a map into keys (even positions)
/// and values (odd positions); a trailing unpaired key is dropped.
pub open spec fn split_pairs(childs: Seq<FormV>) -> (Seq<FormV>, Seq<FormV>) {
    (
        Seq::new((childs.len() / 2) as nat, |i: int| childs[2 * i]),
        Seq::new((childs.len() / 2) as nat, |i: int| childs[2 * i + 1]),
    )
}

/// The reader, on the model level: reads one form at position `i`, giving
/// it coordinate `coord`, and returns the form and the position just after
/// it; `None` on malformed or unterminated input.
pub open spec fn spec_read(s: Seq<char>, i: int, coord: Seq<u16>) -> Option<(FormV, int)>
    decreases s.len() - i, 1int, 0int,
{
    if i < 0 || i >= s.len() {
        None
    } else if s[i] == '"' {
        match string_end(s, i + 1) {
            Option::None => None,
            Option::Some(e) => Some(
                (FormV::StrLit { text: s.subrange(i + 1, e) }, e + 1),
            ),
        }
    } else if s[i] == '(' {
        match spec_read_delim(s, i + 1, ')', coord, 0) {
            Option::None => None,
            Option::Some((childs, j)) => Some(
                (FormV::List { childs, style: PrintStyle::Unstyled, coord }, j),
            ),
        }
    } else if s[i] == '[' {
        match spec_read_delim(s, i + 1, ']', coord, 0) {
            Option::None => None,
            Option::Some((childs, j)) => Some(
                (FormV::Vector { childs, style: PrintStyle::Unstyled, coord }, j),
            ),
        }
    } else if s[i] == '{' {
        match spec_read_delim(s, i + 1, '}', coord, 0) {
            Option::None => None,
            Option::Some((childs, j)) => {
                let (keys, vals) = split_pairs(childs);
                Some((FormV::MapForm { keys, vals, style: PrintStyle::Unstyled, coord }, j))
            },
        }
    } else if s[i] == '#' {
        if i + 1 >= s.len() {
            None
        } else if s[i + 1] == '{' {
            match spec_read_delim(s, i + 2, '}', coord, 0) {
                Option::None => None,
                Option::Some((childs, j)) => Some(
                    (FormV::SetForm { childs, style: PrintStyle::Unstyled, coord }, j),
                ),
            }
        } else if s[i + 1] == '"' {
            match string_end(s, i + 2) {
                Option::None => None,
                Option::Some(e) => Some(
                    (FormV::Regexp { text: s.subrange(i + 2, e) }, e + 1),
                ),
            }
        } else {
            let te = atom_end(s, i + 2);
            let tag = s.subrange(i + 1, te);
            match spec_read(s, advance(i, te, s.len() as int), coord) {
                Option::None => None,
                Option::Some((f, j)) => Some(
                    (FormV::Tagged { tag, form: Box::new(f), coord }, j),
                ),
            }
        }
    } else {
        let e = atom_end(s, i + 1);
        Some((FormV::Atomic { text: s.subrange(i, e), coord }, e))
    }
}

/// Reads sibling forms up to the closing delimiter `delim`; the `idx`th
/// sibling gets coordinate `coord` extended with `idx`.
pub open spec fn spec_read_delim(
    s: Seq<char>,
    i: int,
    delim: char,
    coord: Seq<u16>,
    idx: int,
) -> Option<(Seq<FormV>, int)>
    decreases s.len() - i, 2int, 0int,
{
    if i < 0 || i >= s.len() {
        None
    } else if s[i] == delim {
        Some((Seq::empty(), i + 1))
    } else if idx > u16::MAX as int {
        None
    } else {
        match spec_read(s, i, coord.push(idx as u16)) {
            Option::None => None,
            Option::Some((f, j)) => {
                let j2 = advance(i, sep_skip(s, j), s.len() as int);
                match spec_read_delim(s, j2, delim, coord, idx + 1) {
                    Option::None => None,
                    Option::Some((rest, k)) => Some((seq![f] + rest, k)),
                }
            },
        }
    }
}

/// Reading a form at `i` ends strictly after `i` and within the input,
/// so the clamp in `advance` never changes a returned position.
pub proof fn lemma_read_progress(s: Seq<char>, i: int, coord: Seq<u16>)
    ensures
        spec_read(s, i, coord) matches Some((f, j)) ==> i < j <= s.len(),
    decreases s.len() - i, 1int,
{
    if 0 <= i < s.len() {
        lemma_atom_end(s, i + 1);
        lemma_string_end(s, i + 1);
        lemma_read_delim_progress(s, i + 1, ')', coord, 0);
        lemma_read_delim_progress(s, i + 1, ']', coord, 0);
        lemma_read_delim_progress(s, i + 1, '}', coord, 0);
        if i + 2 <= s.len() {
            lemma_atom_end(s, i + 2);
            lemma_string_end(s, i + 2);
            lemma_read_delim_progress(s, i + 2, '}', coord, 0);
        }
        if s[i] == '#' && i + 1 < s.len() && s[i + 1] != '{' && s[i + 1] != '"' {
            let te = atom_end(s, i + 2);
            lemma_read_progress(s, advance(i, te, s.len() as int), coord);
        }
    }
}

/// Companion to `lemma_read_progress` for sibling sequences.
pub proof fn lemma_read_delim_progress(
    s: Seq<char>,
    i: int,
    delim: char,
    coord: Seq<u16>,
    idx: int,
)
    ensures
        spec_read_delim(s, i, delim, coord, idx) matches Some((fs, k)) ==> i < k <= s.len(),
    decreases s.len() - i, 2int,
{
    if 0 <= i < s.len() && s[i] != delim && idx <= u16::MAX as int {
        lemma_read_progress(s, i, coord.push(idx as u16));
        match spec_read(s, i, coord.push(idx as u16)) {
            Option::None => {},
            Option::Some((f, j)) => {
                let j2 = advance(i, sep_skip(s, j), s.len() as int);
                lemma_read_delim_progress(s, j2, delim, coord, idx + 1);
            },
        }
    }
}

/// `atom_end` stays within the input and does not move backwards.
pub proof fn lemma_atom_end(s: Seq<char>, j: int)
    requires
        0 <= j <= s.len(),
    ensures
        j <= atom_end(s, j) <= s.len(),
    decreases s.len() - j,
{
    if j < s.len() && !is_stop_char(s[j]) {
        lemma_atom_end(s, j + 1);
    }
}

/// `string_end` finds a quote within the input, at or after `j`.
pub proof fn lemma_string_end(s: Seq<char>, j: int)
    requires
        0 <= j <= s.len(),
    ensures
        string_end(s, j) matches Some(e) ==> j <= e < s.len() && s[e] == '"',
    decreases s.len() - j,
{
    if j < s.len() && s[j] != '"' {
        lemma_string_end(s, j + 1);
    }
}

/// The reader, on the model level, applied to a whole text: the form read
/// from position zero with the empty (root) coordinate. Text that follows
/// the first form is ignored, as the character cursor simply stops there.
pub open spec fn spec_read_str(t: Seq<char>) -> Option<FormV> {
    match spec_read(t, 0, Seq::empty()) {
        Option::None => None,
        Option::Some((f, j)) => Some(f),
    }
}

/// Copies a coordinate.
pub fn clone_coord(v: &Vec<u16>) -> (r: Vec<u16>)
    ensures
        r@ == v@,
{
    let mut r: Vec<u16> = Vec::new();
    let mut i: usize = 0;
    while i < v.len()
        invariant
            i <= v@.len(),
            r@ == v@.subrange(0, i as int),
        decreases v@.len() - i,
    {
        r.push(v[i]);
        proof {
            assert(r@ =~= v@.subrange(0, i + 1 as int));
        }
        i = i + 1;
    }
    proof {
        assert(r@ =~= v@);
    }
    r
}

fn clone_form_vec(v: &Vec<PrintableLispForm>) -> (res: Vec<PrintableLispForm>)
    ensures
        fviews(res@) == fviews(v@),
    decreases *v,
{
    broadcast use lemma_fviews_len, lemma_fviews_index;

    let mut res: Vec<PrintableLispForm> = Vec::new();
    let mut i: usize = 0;
    while i < v.len()
        invariant
            i <= v@.len(),
            res@.len() == i,
            forall|j: int| 0 <= j < i ==> fview(#[trigger] res@[j]) == fview(v@[j]),
        decreases v@.len() - i,
    {
        res.push(v[i].clone());
        i = i + 1;
    }
    proof {
        assert(fviews(res@) =~= fviews(v@));
    }
    res
}

/// Appending a form to a sequence appends its model.
pub broadcast proof fn lemma_fviews_push(s: Seq<PrintableLispForm>, f: PrintableLispForm)
    ensures
        #[trigger] fviews(s.push(f)) == fviews(s).push(fview(f)),
{
    broadcast use lemma_fviews_len, lemma_fviews_index;

    assert forall|i: int| 0 <= i < s.len() + 1 implies fviews(s.push(f))[i] == fviews(s).push(
        fview(f),
    )[i] by {
        if i < s.len() {
            assert(s.push(f)[i] == s[i]);
        } else {
            assert(s.push(f)[i] == f);
        }
    }
    assert(fviews(s.push(f)) =~= fviews(s).push(fview(f)));
}

/// Relies on `String`'s `FromIterator<char>` implementation: collecting an
/// iterator of characters yields a string of exactly those characters.
#[verifier::external_body]
fn string_from_chars(v: &Vec<char>) -> (s: String)
    ensures
        s@ == v@,
{
    v.iter().collect()
}

/// Relies on `str::chars`: the iterator yields exactly the characters of
/// the string, in order.
#[verifier::external_body]
fn chars_vec(s: &str) -> (r: Vec<char>)
    ensures
        r@ == s@,
{
    s.chars().collect()
}

/// The number of characters in a string slice.
pub fn chars_count(s: &str) -> (r: usize)
    ensures
        r as nat == s@.len(),
{
    let v = chars_vec(s);
    v.len()
}

/// Lexicographic order on character sequences, by code point.
pub open spec fn lex_le(a: Seq<char>, b: Seq<char>) -> bool
    decreases a.len(),
{
    if a.len() == 0 {
        true
    } else if b.len() == 0 {
        false
    } else if (a[0] as u32) == (b[0] as u32) {
        lex_le(a.drop_first(), b.drop_first())
    } else {
        (a[0] as u32) < (b[0] as u32)
    }
}

/// `lex_le` is total: of any two texts, one sorts at or before the
/// other.
pub proof fn lemma_lex_le_total(a: Seq<char>, b: Seq<char>)
    ensures
        lex_le(a, b) || lex_le(b, a),
    decreases a.len(),
{
    if a.len() > 0 && b.len() > 0 && (a[0] as u32) == (b[0] as u32) {
        lemma_lex_le_total(a.drop_first(), b.drop_first());
    }
}

/// `lex_le` is transitive.
pub proof fn lemma_lex_le_trans(a: Seq<char>, b: Seq<char>, c: Seq<char>)
    requires
        lex_le(a, b),
        lex_le(b, c),
    ensures
        lex_le(a, c),
    decreases a.len(),
{
    if a.len() > 0 && b.len() > 0 && c.len() > 0 && (a[0] as u32) == (b[0] as u32) && (
    b[0] as u32) == (c[0] as u32) {
        lemma_lex_le_trans(a.drop_first(), b.drop_first(), c.drop_first());
    }
}

/// Whether `a` sorts at or before `b`, comparing characters by code
/// point, as display order for locals.
pub fn str_le(a: &str, b: &str) -> (r: bool)
    ensures
        r == lex_le(a@, b@),
    decreases a@.len(),
{
    let va = chars_vec(a);
    let vb = chars_vec(b);
    proof {
        assert(a@.skip(0) =~= a@);
        assert(b@.skip(0) =~= b@);
    }
    let mut i: usize = 0;
    loop
        invariant
            i <= va@.len(),
            i <= vb@.len(),
            va@ == a@,
            vb@ == b@,
            lex_le(a@, b@) == lex_le(a@.skip(i as int), b@.skip(i as int)),
        decreases va@.len() - i,
    {
        proof {
            assert(a@.skip(i as int).len() == a@.len() - i);
            assert(b@.skip(i as int).len() == b@.len() - i);
        }
        if i >= va.len() {
            return true;
        }
        if i >= vb.len() {
            return false;
        }
        proof {
            assert(a@.skip(i as int)[0] == a@[i as int]);
            assert(b@.skip(i as int)[0] == b@[i as int]);
            assert(a@.skip(i as int).drop_first() =~= a@.skip(i + 1));
            assert(b@.skip(i as int).drop_first() =~= b@.skip(i + 1));
        }
        if (va[i] as u32) != (vb[i] as u32) {
            return (va[i] as u32) < (vb[i] as u32);
        }
        i = i + 1;
    }
}

/// Whether two string slices hold the same characters.
pub fn str_eq(a: &str, b: &str) -> (r: bool)
    ensures
        r == (a@ == b@),
{
    let va = chars_vec(a);
    let vb = chars_vec(b);
    if va.len() != vb.len() {
        return false;
    }
    let n = va.len();
    let mut i: usize = 0;
    while i < n
        invariant
            i <= n,
            n == va@.len() == vb@.len(),
            va@ == a@,
            vb@ == b@,
            forall|j: int| 0 <= j < i ==> va@[j] == vb@[j],
        decreases n - i,
    {
        if va[i] != vb[i] {
            return false;
        }
        i = i + 1;
    }
    proof {
        assert(a@ =~= b@);
    }
    true
}

/// True when `c` ends an atomic token.
fn stop_char(c: char) -> (b: bool)
    ensures
        b == is_stop_char(c),
{
    c == ' ' || c == ',' || c == ')' || c == '}' || c == ']' || c == '(' || c == '{' || c == '['
}

/// The characters of `input` from `from` (inclusive) to `to` (exclusive),
/// as a string.
fn substring_chars(input: &Vec<char>, from: usize, to: usize) -> (s: String)
    requires
        from <= to <= input@.len(),
    ensures
        s@ == input@.subrange(from as int, to as int),
{
    let mut v: Vec<char> = Vec::new();
    let mut i: usize = from;
    while i < to
        invariant
            from <= i <= to <= input@.len(),
            v@ == input@.subrange(from as int, i as int),
        decreases to - i,
    {
        v.push(input[i]);
        proof {
            assert(v@ =~= input@.subrange(from as int, i + 1 as int));
        }
        i = i + 1;
    }
    string_from_chars(&v)
}

/// Reads one atomic token starting at `pos`: the first character is taken
/// unconditionally, then characters up to the next stop character.
fn read_atomic_token(input: &Vec<char>, pos: usize) -> (r: (String, usize))
    requires
        pos < input@.len(),
    ensures
        r.1 == atom_end(input@, pos + 1),
        pos < r.1 <= input@.len(),
        r.0@ == input@.subrange(pos as int, r.1 as int),
{
    let n = input.len();
    let mut j: usize = pos + 1;
    while j < n && !stop_char(input[j])
        invariant
            pos + 1 <= j <= n,
            n == input@.len(),
            atom_end(input@, pos + 1) == atom_end(input@, j as int),
        decreases n - j,
    {
        j = j + 1;
    }
    (substring_chars(input, pos, j), j)
}

/// Reads a double-quoted string whose opening quote stands at `pos`;
/// the text up to the next quote is the content. Unterminated input
/// is an error.
fn read_string(input: &Vec<char>, pos: usize) -> (r: Option<(String, usize)>)
    requires
        pos < input@.len(),
    ensures
        match string_end(input@, pos + 1) {
            Option::None => r is None,
            Option::Some(e) => {
                &&& r matches Some((content, j))
                &&& content@ == input@.subrange(pos + 1, e)
                &&& j == e + 1
                &&& pos < j <= input@.len()
            },
        },
{
    let n = input.len();
    let mut j: usize = pos + 1;
    while j < n && input[j] != '"'
        invariant
            pos + 1 <= j <= n,
            n == input@.len(),
            string_end(input@, pos + 1) == string_end(input@, j as int),
        decreases n - j,
    {
        j = j + 1;
    }
    if j >= n {
        None
    } else {
        Some((substring_chars(input, pos + 1, j), j + 1))
    }
}

/// Reads sibling forms up to (and through) the closing delimiter `delim`,
/// starting just after the opening delimiter. Sibling `idx` gets
/// coordinate `curr_coord` extended with `idx`; a single comma and a
/// single space after each sibling are consumed.
fn read_delimited_vec(
    input: &Vec<char>,
    pos: usize,
    delim: char,
    curr_coord: &Vec<u16>,
) -> (r: Option<(Vec<PrintableLispForm>, usize)>)
    ensures
        match spec_read_delim(input@, pos as int, delim, curr_coord@, 0) {
            Option::None => r is None,
            Option::Some((cs, k)) => {
                &&& r matches Some((v, j))
                &&& fviews(v@) == cs
                &&& j == k
                &&& pos < j <= input@.len()
            },
        },
    decreases input@.len() - pos, 2int,
{
    broadcast use lemma_fviews_len, lemma_fviews_index, lemma_fviews_push;

    let n = input.len();
    if pos > n {
        return None;
    }
    let ghost s = input@;
    let ghost full = spec_read_delim(s, pos as int, delim, curr_coord@, 0);
    let mut v: Vec<PrintableLispForm> = Vec::new();
    let mut cur: usize = pos;
    let mut idx: usize = 0;
    loop
        invariant
            pos <= cur <= n,
            n == s.len(),
            s == input@,
            pos < cur || idx == 0,
            idx == v@.len(),
            full == spec_read_delim(s, pos as int, delim, curr_coord@, 0),
            match spec_read_delim(s, cur as int, delim, curr_coord@, idx as int) {
                Option::None => full is None,
                Option::Some((rest, k)) => full == Some::<(Seq<FormV>, int)>(
                    (fviews(v@) + rest, k),
                ),
            },
        decreases n - cur,
    {
        if cur >= n {
            return None;
        }
        if input[cur] == delim {
            proof {
                assert(fviews(v@) + Seq::<FormV>::empty() =~= fviews(v@));
            }
            return Some((v, cur + 1));
        }
        if idx > u16::MAX as usize {
            return None;
        }
        let mut form_coord = clone_coord(curr_coord);
        form_coord.push(idx as u16);
        match read(input, cur, &form_coord) {
            Option::None => {
                return None;
            },
            Option::Some((form, j)) => {
                let mut j2: usize = j;
                if j2 < n && input[j2] == ',' {
                    j2 = j2 + 1;
                }
                if j2 < n && input[j2] == ' ' {
                    j2 = j2 + 1;
                }
                proof {
                    assert(j2 == sep_skip(s, j as int));
                    assert(advance(cur as int, j2 as int, n as int) == j2 as int);
                    assert(form_coord@ == curr_coord@.push(idx as u16));
                    match spec_read_delim(s, j2 as int, delim, curr_coord@, idx + 1 as int) {
                        Option::None => {},
                        Option::Some((rest, k)) => {
                            lemma_fviews_push(v@, form);
                            assert(fviews(v@).push(fview(form)) + rest =~= fviews(v@) + (seq![
                                fview(form),
                            ] + rest));
                        },
                    }
                }
                v.push(form);
                cur = j2;
                idx = idx + 1;
            },
        }
    }
}

/// Reads the body of a map, whose opening brace stands at `pos`: the flat
/// sibling sequence is split into keys (even positions) and values (odd
/// positions); a trailing unpaired key is dropped.
fn read_map(input: &Vec<char>, pos: usize, curr_coord: &Vec<u16>) -> (r: Option<
    (Vec<PrintableLispForm>, Vec<PrintableLispForm>, usize),
>)
    requires
        pos < input@.len(),
    ensures
        match spec_read_delim(input@, pos + 1, '}', curr_coord@, 0) {
            Option::None => r is None,
            Option::Some((cs, k)) => {
                &&& r matches Some((keys, vals, j))
                &&& fviews(keys@) == split_pairs(cs).0
                &&& fviews(vals@) == split_pairs(cs).1
                &&& j == k
                &&& pos < j <= input@.len()
            },
        },
    decreases input@.len() - pos, 0int,
{
    broadcast use lemma_fviews_len, lemma_fviews_index, lemma_fviews_push;

    let n = input.len();
    match read_delimited_vec(input, pos + 1, '}', curr_coord) {
        Option::None => None,
        Option::Some((forms, j)) => {
            let ghost cs = fviews(forms@);
            let mut keys: Vec<PrintableLispForm> = Vec::new();
            let mut vals: Vec<PrintableLispForm> = Vec::new();
            let mut i: usize = 0;
            while i + 1 < forms.len()
                invariant
                    i % 2 == 0,
                    i <= forms@.len(),
                    cs == fviews(forms@),
                    cs.len() == forms@.len(),
                    keys@.len() == i / 2,
                    vals@.len() == i / 2,
                    forall|t: int| 0 <= t < i / 2 ==> fview(#[trigger] keys@[t]) == cs[2 * t],
                    forall|t: int|
                        0 <= t < i / 2 ==> fview(#[trigger] vals@[t]) == cs[2 * t + 1],
                decreases forms@.len() - i,
            {
                proof {
                    lemma_fviews_index(forms@, i as int);
                    lemma_fviews_index(forms@, i + 1);
                }
                keys.push(forms[i].clone());
                vals.push(forms[i + 1].clone());
                i = i + 2;
            }
            proof {
                assert(i / 2 == cs.len() / 2);
                lemma_fviews_len(keys@);
                lemma_fviews_len(vals@);
                assert forall|t: int| 0 <= t < cs.len() / 2 implies #[trigger] fviews(keys@)[t]
                    == cs[2 * t] by {
                    lemma_fviews_index(keys@, t);
                }
                assert forall|t: int| 0 <= t < cs.len() / 2 implies #[trigger] fviews(vals@)[t]
                    == cs[2 * t + 1] by {
                    lemma_fviews_index(vals@, t);
                }
                assert(fviews(keys@) =~= split_pairs(cs).0);
                assert(fviews(vals@) =~= split_pairs(cs).1);
            }
            Some((keys, vals, j))
        },
    }
}

/// Reads one form whose first character stands at `pos`, tagging it with
/// coordinate `curr_coord`. Returns the form and the position just after
/// it; `None` on malformed or unterminated input.
fn read(input: &Vec<char>, pos: usize, curr_coord: &Vec<u16>) -> (r: Option<
    (PrintableLispForm, usize),
>)
    ensures
        match spec_read(input@, pos as int, curr_coord@) {
            Option::None => r is None,
            Option::Some((fv, k)) => {
                &&& r matches Some((f, j))
                &&& fview(f) == fv
                &&& j == k
                &&& pos < j <= input@.len()
            },
        },
    decreases input@.len() - pos, 1int,
{
    let n = input.len();
    if pos >= n {
        return None;
    }
    let c = input[pos];
    if c == '"' {
        match read_string(input, pos) {
            Option::None => None,
            Option::Some((text, j)) => Some((PrintableLispForm::String(text), j)),
        }
    } else if c == '(' {
        match read_delimited_vec(input, pos + 1, ')', curr_coord) {
            Option::None => None,
            Option::Some((childs, j)) => Some(
                (
                    PrintableLispForm::List {
                        childs,
                        style: PrintStyle::Unstyled,
                        coord: clone_coord(curr_coord),
                    },
                    j,
                ),
            ),
        }
    } else if c == '[' {
        match read_delimited_vec(input, pos + 1, ']', curr_coord) {
            Option::None => None,
            Option::Some((childs, j)) => Some(
                (
                    PrintableLispForm::Vector {
                        childs,
                        style: PrintStyle::Unstyled,
                        coord: clone_coord(curr_coord),
                    },
                    j,
                ),
            ),
        }
    } else if c == '{' {
        match read_map(input, pos, curr_coord) {
            Option::None => None,
            Option::Some((keys, vals, j)) => Some(
                (
                    PrintableLispForm::MapForm {
                        keys,
                        vals,
                        style: PrintStyle::Unstyled,
                        coord: clone_coord(curr_coord),
                    },
                    j,
                ),
            ),
        }
    } else if c == '#' {
        if pos + 1 >= n {
            return None;
        }
        let c2 = input[pos + 1];
        if c2 == '{' {
            match read_delimited_vec(input, pos + 2, '}', curr_coord) {
                Option::None => None,
                Option::Some((childs, j)) => Some(
                    (
                        PrintableLispForm::SetForm {
                            childs,
                            style: PrintStyle::Unstyled,
                            coord: clone_coord(curr_coord),
                        },
                        j,
                    ),
                ),
            }
        } else if c2 == '"' {
            match read_string(input, pos + 1) {
                Option::None => None,
                Option::Some((text, j)) => Some((PrintableLispForm::Regexp(text), j)),
            }
        } else {
            let (tag, te) = read_atomic_token(input, pos + 1);
            proof {
                assert(advance(pos as int, te as int, n as int) == te as int);
            }
            match read(input, te, curr_coord) {
                Option::None => None,
                Option::Some((form, j)) => Some(
                    (
                        PrintableLispForm::Tagged {
                            tag,
                            form: Box::new(form),
                            coord: clone_coord(curr_coord),
                        },
                        j,
                    ),
                ),
            }
        }
    } else {
        let (text, e) = read_atomic_token(input, pos);
        Some((PrintableLispForm::Atomic(text, clone_coord(curr_coord)), e))
    }
}

/// Height of a form model: how deeply forms are nested below it.
/// The measure by which functions over `FormV` recurse.
pub open spec fn fheight(f: FormV) -> nat
    decreases f,
{
    match f {
        FormV::Atomic { text, coord } => 0,
        FormV::StrLit { text } => 0,
        FormV::Regexp { text } => 0,
        FormV::List { childs, style, coord } => sheight(childs) + 1,
        FormV::Vector { childs, style, coord } => sheight(childs) + 1,
        FormV::SetForm { childs, style, coord } => sheight(childs) + 1,
        FormV::MapForm { keys, vals, style, coord } => sheight(keys) + sheight(vals) + 1,
        FormV::Tagged { tag, form, coord } => fheight(*form) + 1,
    }
}

/// Summed height of a sequence of form models.
pub open spec fn sheight(s: Seq<FormV>) -> nat
    decreases s,
{
    if s.len() == 0 {
        0
    } else {
        fheight(s[0]) + sheight(s.drop_first()) + 1
    }
}

/// Every element of a sequence sits strictly below the whole sequence.
pub proof fn lemma_sheight_index(s: Seq<FormV>, i: int)
    requires
        0 <= i < s.len(),
    ensures
        fheight(s[i]) < sheight(s),
    decreases s,
{
    if i > 0 {
        lemma_sheight_index(s.drop_first(), i - 1);
    }
}

/// The linear text of a form: delimiters around the children, siblings
/// one space apart, strings re-quoted; no line breaks.
pub open spec fn render(f: FormV) -> Seq<char>
    decreases fheight(f),
{
    match f {
        FormV::Atomic { text, coord } => text,
        FormV::StrLit { text } => seq!['"'] + text + seq!['"'],
        FormV::Regexp { text } => seq!['#', '"'] + text + seq!['"'],
        FormV::List { childs, style, coord } => seq!['('] + render_seq(childs) + seq![')'],
        FormV::Vector { childs, style, coord } => seq!['['] + render_seq(childs) + seq![']'],
        FormV::SetForm { childs, style, coord } => seq!['#', '{'] + render_seq(childs) + seq!['}'],
        FormV::MapForm { keys, vals, style, coord } => seq!['{'] + render_pairs(keys, vals)
            + seq!['}'],
        FormV::Tagged { tag, form, coord } => seq!['#'] + tag + render(*form),
    }
}

/// The linear text of sibling forms, one space apart.
pub open spec fn render_seq(s: Seq<FormV>) -> Seq<char>
    decreases sheight(s),
{
    if s.len() == 0 {
        Seq::empty()
    } else if s.len() == 1 {
        render(s[0])
    } else {
        render(s[0]) + seq![' '] + render_seq(s.drop_first())
    }
}

/// The linear text of a map body: `key value` pairs, everything one
/// space apart; surplus keys or values without a partner are dropped.
pub open spec fn render_pairs(keys: Seq<FormV>, vals: Seq<FormV>) -> Seq<char>
    decreases sheight(keys) + sheight(vals),
{
    if keys.len() == 0 || vals.len() == 0 {
        Seq::empty()
    } else if keys.len() == 1 || vals.len() == 1 {
        render(keys[0]) + seq![' '] + render(vals[0])
    } else {
        render(keys[0]) + seq![' '] + render(vals[0]) + seq![' '] + render_pairs(
            keys.drop_first(),
            vals.drop_first(),
        )
    }
}

/// Appending a sibling extends the rendered text by a space and the
/// sibling's own text (no space when it is the first sibling).
pub proof fn lemma_render_seq_push(s: Seq<FormV>, f: FormV)
    ensures
        render_seq(s.push(f)) == if s.len() == 0 {
            render(f)
        } else {
            render_seq(s) + seq![' '] + render(f)
        },
    decreases s,
{
    if s.len() == 0 {
        assert(s.push(f)[0] == f);
        assert(render_seq(s.push(f)) == render(f));
    } else {
        assert(s.push(f).drop_first() =~= s.drop_first().push(f));
        lemma_render_seq_push(s.drop_first(), f);
        if s.len() == 1 {
            assert(render_seq(s.push(f)) == render(s[0]) + seq![' '] + render(f));
            assert(render_seq(s) == render(s[0]));
        } else {
            assert(render_seq(s) + seq![' '] + render(f) =~= render(s[0]) + seq![' '] + (
            render_seq(s.drop_first()) + seq![' '] + render(f)));
        }
    }
}

/// Appending a pair extends the rendered map body by the key and the
/// value, everything one space apart.
pub proof fn lemma_render_pairs_push(keys: Seq<FormV>, vals: Seq<FormV>, k: FormV, v: FormV)
    requires
        keys.len() == vals.len(),
    ensures
        render_pairs(keys.push(k), vals.push(v)) == if keys.len() == 0 {
            render(k) + seq![' '] + render(v)
        } else {
            render_pairs(keys, vals) + seq![' '] + (render(k) + seq![' '] + render(v))
        },
    decreases keys,
{
    if keys.len() == 0 {
        assert(keys.push(k)[0] == k);
        assert(vals.push(v)[0] == v);
    } else {
        assert(keys.push(k).drop_first() =~= keys.drop_first().push(k));
        assert(vals.push(v).drop_first() =~= vals.drop_first().push(v));
        lemma_render_pairs_push(keys.drop_first(), vals.drop_first(), k, v);
        if keys.len() == 1 {
            assert(render_pairs(keys.push(k), vals.push(v)) == render(keys[0]) + seq![' ']
                + render(vals[0]) + seq![' '] + (render(k) + seq![' '] + render(v)));
            assert(render_pairs(keys, vals) == render(keys[0]) + seq![' '] + render(vals[0]));
        } else {
            assert(render_pairs(keys, vals) + seq![' '] + (render(k) + seq![' '] + render(v)) =~= render(
                keys[0],
            ) + seq![' '] + render(vals[0]) + seq![' '] + (render_pairs(
                keys.drop_first(),
                vals.drop_first(),
            ) + seq![' '] + (render(k) + seq![' '] + render(v))));
        }
    }
}

/// The linear text of the forms of `v`, one space apart.
fn lisp_form_vec_to_str(v: &Vec<PrintableLispForm>) -> (r: String)
    ensures
        r@ == render_seq(fviews(v@)),
    decreases *v,
{
    broadcast use lemma_fviews_len, lemma_fviews_index;

    let mut r = String::new();
    let mut i: usize = 0;
    #[verifier::loop_isolation(false)]
    while i < v.len()
        invariant
            i <= v@.len(),
            r@ == render_seq(fviews(v@).take(i as int)),
        decreases v@.len() - i,
    {
        proof {
            reveal_strlit(" ");
            lemma_fviews_len(v@);
            lemma_fviews_index(v@, i as int);
        }
        if i > 0 {
            r.append(" ");
        }
        let cs = v[i].to_string();
        r.append(cs.as_str());
        proof {
            let pre = fviews(v@).take(i as int);
            assert(fviews(v@).take(i + 1) =~= pre.push(fview(v@[i as int])));
            lemma_render_seq_push(pre, fview(v@[i as int]));
        }
        i = i + 1;
    }
    proof {
        assert(fviews(v@).take(v@.len() as int) =~= fviews(v@));
    }
    r
}

impl PrintableLispForm {
    /// The linear text of the form, as `render` describes it.
    #[verifier::rlimit(100)]
    pub fn to_string(&self) -> (r: String)
        ensures
            r@ == render(fview(*self)),
        decreases *self,
    {
        proof {
            reveal_strlit("\"");
            reveal_strlit("#\"");
            reveal_strlit("(");
            reveal_strlit(")");
            reveal_strlit("[");
            reveal_strlit("]");
            reveal_strlit("#{");
            reveal_strlit("{");
            reveal_strlit("}");
            reveal_strlit("#");
        }
        let mut r = String::new();
        match self {
            PrintableLispForm::String(s) => {
                r.append("\"");
                r.append(s.as_str());
                r.append("\"");
                proof {
                    assert(r@ =~= render(fview(*self)));
                }
            },
            PrintableLispForm::Regexp(s) => {
                r.append("#\"");
                r.append(s.as_str());
                r.append("\"");
                proof {
                    assert(r@ =~= render(fview(*self)));
                }
            },
            PrintableLispForm::Atomic(s, c) => {
                r.append(s.as_str());
                proof {
                    assert(r@ =~= render(fview(*self)));
                }
            },
            PrintableLispForm::List { childs, style, coord } => {
                r.append("(");
                let body = lisp_form_vec_to_str(childs);
                r.append(body.as_str());
                r.append(")");
                proof {
                    assert(r@ =~= render(fview(*self)));
                }
            },
            PrintableLispForm::Vector { childs, style, coord } => {
                r.append("[");
                let body = lisp_form_vec_to_str(childs);
                r.append(body.as_str());
                r.append("]");
                proof {
                    assert(r@ =~= render(fview(*self)));
                }
            },
            PrintableLispForm::SetForm { childs, style, coord } => {
                r.append("#{");
                let body = lisp_form_vec_to_str(childs);
                r.append(body.as_str());
                r.append("}");
                proof {
                    assert(r@ =~= render(fview(*self)));
                }
            },
            PrintableLispForm::MapForm { keys, vals, style, coord } => {
                r.append("{");
                let mut i: usize = 0;
                let n = if keys.len() < vals.len() {
                    keys.len()
                } else {
                    vals.len()
                };
                proof {
                    broadcast use lemma_fviews_len, lemma_fviews_index;

                }
                #[verifier::loop_isolation(false)]
                while i < n
                    invariant
                        i <= n,
                        n == if keys@.len() < vals@.len() {
                            keys@.len()
                        } else {
                            vals@.len()
                        },
                        fviews(keys@).len() == keys@.len(),
                        fviews(vals@).len() == vals@.len(),
                        r@ == seq!['{'] + render_pairs(
                            fviews(keys@).take(i as int),
                            fviews(vals@).take(i as int),
                        ),
                    decreases n - i,
                {
                    proof {
                        reveal_strlit(" ");
                        lemma_fviews_index(keys@, i as int);
                        lemma_fviews_index(vals@, i as int);
                    }
                    if i > 0 {
                        r.append(" ");
                    }
                    let ks = keys[i].to_string();
                    r.append(ks.as_str());
                    r.append(" ");
                    let vs = vals[i].to_string();
                    r.append(vs.as_str());
                    proof {
                        let pk = fviews(keys@).take(i as int);
                        let pv = fviews(vals@).take(i as int);
                        assert(fviews(keys@).take(i + 1) =~= pk.push(fview(keys@[i as int])));
                        assert(fviews(vals@).take(i + 1) =~= pv.push(fview(vals@[i as int])));
                        lemma_render_pairs_push(
                            pk,
                            pv,
                            fview(keys@[i as int]),
                            fview(vals@[i as int]),
                        );
                    }
                    i = i + 1;
                }
                r.append("}");
                proof {
                    broadcast use lemma_fviews_len, lemma_fviews_index;

                    lemma_render_pairs_take_min(fviews(keys@), fviews(vals@), n as int);
                    assert(r@ =~= render(fview(*self)));
                }
            },
            PrintableLispForm::Tagged { tag, form, coord } => {
                r.append("#");
                r.append(tag.as_str());
                let fs = (**form).to_string();
                r.append(fs.as_str());
                proof {
                    assert(r@ =~= render(fview(*self)));
                }
            },
        }
        r
    }
}

/// Rendering map pairs only reads the paired prefixes of the two
/// sequences: the shorter length decides where the text ends.
pub proof fn lemma_render_pairs_take_min(keys: Seq<FormV>, vals: Seq<FormV>, n: int)
    requires
        n == if keys.len() < vals.len() {
            keys.len() as int
        } else {
            vals.len() as int
        },
    ensures
        render_pairs(keys.take(n), vals.take(n)) == render_pairs(keys, vals),
    decreases keys,
{
    if keys.len() == 0 || vals.len() == 0 {
        assert(keys.take(n) =~= keys.take(0));
        assert(keys.take(0).len() == 0);
    } else if keys.len() == 1 || vals.len() == 1 {
        assert(n >= 1);
        assert(keys.take(n)[0] == keys[0]);
        assert(vals.take(n)[0] == vals[0]);
        assert(keys.take(n).len() == 1 || vals.take(n).len() == 1);
    } else {
        assert(keys.take(n).drop_first() =~= keys.drop_first().take(n - 1));
        assert(vals.take(n).drop_first() =~= vals.drop_first().take(n - 1));
        lemma_render_pairs_take_min(keys.drop_first(), vals.drop_first(), n - 1);
        assert(keys.take(n)[0] == keys[0]);
        assert(vals.take(n)[0] == vals[0]);
    }
}

/// Reads the first form of `input`. Text after that form is ignored.
pub fn read_str(input: &str) -> (r: Option<PrintableLispForm>)
    ensures
        match spec_read_str(input@) {
            Option::None => r is None,
            Option::Some(fv) => r matches Some(f) && fview(f) == fv,
        },
{
    let chars = chars_vec(input);
    let coord: Vec<u16> = Vec::new();
    match read(&chars, 0, &coord) {
        Option::None => None,
        Option::Some((f, _j)) => Some(f),
    }
}

impl Clone for PrintableLispForm {
    /// A clone has the same model as the original.
    fn clone(&self) -> (res: Self)
        ensures
            fview(res) == fview(*self),
        decreases *self,
    {
        match self {
            PrintableLispForm::Atomic(s, c) => PrintableLispForm::Atomic(s.clone(), clone_coord(c)),
            PrintableLispForm::String(s) => PrintableLispForm::String(s.clone()),
            PrintableLispForm::List { childs, style, coord } => PrintableLispForm::List {
                childs: clone_form_vec(childs),
                style: *style,
                coord: clone_coord(coord),
            },
            PrintableLispForm::Vector { childs, style, coord } => PrintableLispForm::Vector {
                childs: clone_form_vec(childs),
                style: *style,
                coord: clone_coord(coord),
            },
            PrintableLispForm::SetForm { childs, style, coord } => PrintableLispForm::SetForm {
                childs: clone_form_vec(childs),
                style: *style,
                coord: clone_coord(coord),
            },
            PrintableLispForm::MapForm { keys, vals, style, coord } => PrintableLispForm::MapForm {
                keys: clone_form_vec(keys),
                vals: clone_form_vec(vals),
                style: *style,
                coord: clone_coord(coord),
            },
            PrintableLispForm::Regexp(s) => PrintableLispForm::Regexp(s.clone()),
            PrintableLispForm::Tagged { tag, form, coord } => PrintableLispForm::Tagged {
                tag: tag.clone(),
                form: Box::new((**form).clone()),
                coord: clone_coord(coord),
            },
        }
    }
}

/// Text that can stand as one atom: nonempty, free of delimiters and
/// separators, and not starting like a string, list, vector, map or
/// dispatch form.
pub open spec fn wf_atom_text(text: Seq<char>) -> bool {
    &&& text.len() > 0
    &&& (forall|q: int| 0 <= q < text.len() ==> !is_stop_char(#[trigger] text[q]))
    &&& text[0] != '"'
    &&& text[0] != '('
    &&& text[0] != '['
    &&& text[0] != '{'
    &&& text[0] != '#'
}

/// A form the reader reads back exactly from its linear text: atoms are
/// single tokens, strings and regular expressions hold no quote,
/// compound forms are unstyled with canonically numbered children (few
/// enough to number), and a tagged form wraps a delimited form.
pub open spec fn wf_form(f: FormV, coord: Seq<u16>) -> bool
    decreases fheight(f), 1int,
    via wf_form_decreases
{
    match f {
        FormV::Atomic { text, coord: c } => c == coord && wf_atom_text(text),
        FormV::StrLit { text } => forall|q: int| 0 <= q < text.len() ==> #[trigger] text[q] != '"',
        FormV::Regexp { text } => forall|q: int| 0 <= q < text.len() ==> #[trigger] text[q] != '"',
        FormV::List { childs, style, coord: c } => c == coord && style == PrintStyle::Unstyled
            && childs.len() <= 0x10000 && wf_children(childs, coord, 0),
        FormV::Vector { childs, style, coord: c } => c == coord && style == PrintStyle::Unstyled
            && childs.len() <= 0x10000 && wf_children(childs, coord, 0),
        FormV::SetForm { childs, style, coord: c } => c == coord && style == PrintStyle::Unstyled
            && childs.len() <= 0x10000 && wf_children(childs, coord, 0),
        FormV::MapForm { keys, vals, style, coord: c } => c == coord && style
            == PrintStyle::Unstyled && keys.len() == vals.len() && 2 * keys.len() <= 0x10000
            && wf_children(interleave_forms(keys, vals), coord, 0),
        FormV::Tagged { tag, form, coord: c } => c == coord && wf_atom_text(tag) && (*form
            is List || *form is Vector || *form is MapForm) && wf_form(*form, coord),
    }
}

#[via_fn]
proof fn wf_form_decreases(f: FormV, coord: Seq<u16>) {
    match f {
        FormV::MapForm { keys, vals, style, coord: c } => {
            lemma_interleave_forms_sheight(keys, vals);
        },
        _ => {},
    }
}

/// Children numbered `idx`, `idx + 1`, ... under their parent's
/// coordinate, each well formed.
pub open spec fn wf_children(s: Seq<FormV>, coord: Seq<u16>, idx: int) -> bool
    decreases sheight(s), 0int,
{
    s.len() == 0 || (wf_form(s[0], coord.push(idx as u16)) && wf_children(
        s.drop_first(),
        coord,
        idx + 1,
    ))
}

/// The children of a map flattened back into reading order.
pub open spec fn interleave_forms(keys: Seq<FormV>, vals: Seq<FormV>) -> Seq<FormV>
    decreases keys,
{
    if keys.len() == 0 || vals.len() == 0 {
        Seq::empty()
    } else {
        seq![keys[0], vals[0]] + interleave_forms(keys.drop_first(), vals.drop_first())
    }
}

/// Interleaved sequences weigh no more than their parts together.
pub proof fn lemma_interleave_forms_sheight(keys: Seq<FormV>, vals: Seq<FormV>)
    ensures
        sheight(interleave_forms(keys, vals)) <= sheight(keys) + sheight(vals),
    decreases keys,
{
    if keys.len() != 0 && vals.len() != 0 {
        lemma_interleave_forms_sheight(keys.drop_first(), vals.drop_first());
        let t = interleave_forms(keys.drop_first(), vals.drop_first());
        assert(interleave_forms(keys, vals)[0] == keys[0]);
        assert(interleave_forms(keys, vals).drop_first() =~= seq![vals[0]] + t);
        assert((seq![vals[0]] + t)[0] == vals[0]);
        assert((seq![vals[0]] + t).drop_first() =~= t);
        assert(sheight(seq![vals[0]] + t) == fheight(vals[0]) + sheight(t) + 1);
        assert(sheight(interleave_forms(keys, vals)) == fheight(keys[0]) + sheight(
            seq![vals[0]] + t,
        ) + 1);
        assert(sheight(keys) == fheight(keys[0]) + sheight(keys.drop_first()) + 1);
        assert(sheight(vals) == fheight(vals[0]) + sheight(vals.drop_first()) + 1);
    }
}

/// Splitting an interleaving recovers the two sequences.
pub proof fn lemma_split_interleave(keys: Seq<FormV>, vals: Seq<FormV>)
    requires
        keys.len() == vals.len(),
    ensures
        split_pairs(interleave_forms(keys, vals)).0 == keys,
        split_pairs(interleave_forms(keys, vals)).1 == vals,
    decreases keys,
{
    let inter = interleave_forms(keys, vals);
    lemma_interleave_forms_index(keys, vals);
    assert(split_pairs(inter).0 =~= keys);
    assert(split_pairs(inter).1 =~= vals);
}

/// Interleaving, element by element.
pub proof fn lemma_interleave_forms_index(keys: Seq<FormV>, vals: Seq<FormV>)
    ensures
        interleave_forms(keys, vals).len() == 2 * (if keys.len() <= vals.len() {
            keys.len()
        } else {
            vals.len()
        }),
        forall|t: int|
            0 <= 2 * t < interleave_forms(keys, vals).len() ==> #[trigger] interleave_forms(
                keys,
                vals,
            )[2 * t] == keys[t],
        forall|t: int|
            0 <= 2 * t + 1 < interleave_forms(keys, vals).len() ==> #[trigger] interleave_forms(
                keys,
                vals,
            )[2 * t + 1] == vals[t],
    decreases keys,
{
    if keys.len() != 0 && vals.len() != 0 {
        lemma_interleave_forms_index(keys.drop_first(), vals.drop_first());
        let t = interleave_forms(keys.drop_first(), vals.drop_first());
        assert forall|q: int| 0 <= 2 * q < interleave_forms(keys, vals).len() implies #[trigger]
        interleave_forms(keys, vals)[2 * q] == keys[q] by {
            if q > 0 {
                assert(interleave_forms(keys, vals)[2 * q] == t[2 * (q - 1)]);
            }
        }
        assert forall|q: int|
            0 <= 2 * q + 1 < interleave_forms(keys, vals).len() implies #[trigger] interleave_forms(
            keys,
            vals,
        )[2 * q + 1] == vals[q] by {
            if q > 0 {
                assert(interleave_forms(keys, vals)[2 * q + 1] == t[2 * (q - 1) + 1]);
            }
        }
    }
}

/// The rendered pairs of a map are the rendering of its interleaved
/// children.
pub proof fn lemma_render_pairs_interleave(keys: Seq<FormV>, vals: Seq<FormV>)
    requires
        keys.len() == vals.len(),
    ensures
        render_seq(interleave_forms(keys, vals)) == render_pairs(keys, vals),
    decreases keys,
{
    if keys.len() != 0 {
        lemma_render_pairs_interleave(keys.drop_first(), vals.drop_first());
        let t = interleave_forms(keys.drop_first(), vals.drop_first());
        let inter = interleave_forms(keys, vals);
        assert(inter[0] == keys[0]);
        assert(inter.drop_first() =~= seq![vals[0]] + t);
        assert((seq![vals[0]] + t)[0] == vals[0]);
        assert((seq![vals[0]] + t).drop_first() =~= t);
        if keys.len() == 1 {
            assert(t =~= Seq::<FormV>::empty());
            assert(inter.len() == 2);
            assert(inter.drop_first().len() == 1);
            assert(render_seq(inter.drop_first()) == render(vals[0]));
            assert(render_seq(inter) == render(inter[0]) + seq![' '] + render_seq(
                inter.drop_first(),
            ));
            assert(render_seq(inter) =~= render(keys[0]) + seq![' '] + render(vals[0]));
        } else {
            assert(t.len() > 0);
            assert(render_seq(inter) == render(keys[0]) + seq![' '] + render_seq(
                inter.drop_first(),
            ));
            assert(render_seq(inter.drop_first()) == render(vals[0]) + seq![' '] + render_seq(t));
            assert(render_seq(inter) =~= render(keys[0]) + seq![' '] + render(vals[0]) + seq![' ']
                + render_pairs(keys.drop_first(), vals.drop_first()));
        }
    }
}

/// A well-formed form renders to at least one character.
pub proof fn lemma_render_nonempty(f: FormV, coord: Seq<u16>)
    requires
        wf_form(f, coord),
    ensures
        render(f).len() > 0,
{
}

/// Scanning an atom stops exactly at the first stop character.
pub proof fn lemma_scan_atom(s: Seq<char>, i: int, e: int)
    requires
        0 <= i <= e <= s.len(),
        forall|j: int| i <= j < e ==> !is_stop_char(#[trigger] s[j]),
        e == s.len() || is_stop_char(s[e]),
    ensures
        atom_end(s, i) == e,
    decreases e - i,
{
    if i < e {
        lemma_scan_atom(s, i + 1, e);
    }
}

/// Scanning a string stops exactly at the first quote.
pub proof fn lemma_scan_string(s: Seq<char>, i: int, e: int)
    requires
        0 <= i <= e < s.len(),
        forall|j: int| i <= j < e ==> #[trigger] s[j] != '"',
        s[e] == '"',
    ensures
        string_end(s, i) == Some(e),
    decreases e - i,
{
    if i < e {
        lemma_scan_string(s, i + 1, e);
    }
}

/// Reading the linear text of a well-formed form out of any surrounding
/// text yields exactly that form: positions `i` up to `i + render(f).len()`
/// of `s` hold the text, and what follows (if anything) starts with a
/// stop character.
#[verifier::rlimit(100)]
pub proof fn lemma_read_render(s: Seq<char>, i: int, f: FormV, coord: Seq<u16>)
    requires
        wf_form(f, coord),
        0 <= i,
        i + render(f).len() <= s.len(),
        s.subrange(i, i + render(f).len() as int) == render(f),
        i + render(f).len() == s.len() || is_stop_char(s[i + render(f).len()]),
    ensures
        spec_read(s, i, coord) == Some((f, i + render(f).len() as int)),
    decreases fheight(f), 1int,
{
    let r = render(f);
    let e = i + r.len() as int;
    assert forall|j: int| i <= j < e implies #[trigger] s[j] == r[j - i] by {
        assert(s.subrange(i, e)[j - i] == s[j]);
    }
    match f {
        FormV::Atomic { text, coord: c } => {
            assert(s[i] == r[0]);
            assert(s[i] == text[0]);
            assert forall|j: int| i + 1 <= j < e implies !is_stop_char(#[trigger] s[j]) by {
                assert(s[j] == r[j - i]);
                assert(r[j - i] == text[j - i]);
            }
            lemma_scan_atom(s, i + 1, e);
            assert(s.subrange(i, atom_end(s, i + 1)) =~= text) by {
                assert forall|q: int| 0 <= q < text.len() implies s.subrange(i, e)[q]
                    == text[q] by {
                    assert(s[i + q] == r[q]);
                }
            }
        },
        FormV::StrLit { text } => {
            assert(s[i] == '"');
            assert forall|j: int| i + 1 <= j < e - 1 implies #[trigger] s[j] != '"' by {
                assert(r[j - i] == text[j - i - 1]);
            }
            assert(s[e - 1] == r[r.len() - 1]);
            lemma_scan_string(s, i + 1, e - 1);
            assert(s.subrange(i + 1, e - 1) =~= text) by {
                assert forall|q: int| 0 <= q < text.len() implies s.subrange(
                    i + 1,
                    e - 1,
                )[q] == text[q] by {
                    assert(s[i + 1 + q] == r[1 + q]);
                    assert(r[1 + q] == text[q]);
                }
            }
        },
        FormV::Regexp { text } => {
            assert(s[i] == '#');
            assert(s[i + 1] == '"');
            assert forall|j: int| i + 2 <= j < e - 1 implies #[trigger] s[j] != '"' by {
                assert(r[j - i] == text[j - i - 2]);
            }
            assert(s[e - 1] == r[r.len() - 1]);
            lemma_scan_string(s, i + 2, e - 1);
            assert(s.subrange(i + 2, e - 1) =~= text) by {
                assert forall|q: int| 0 <= q < text.len() implies s.subrange(
                    i + 2,
                    e - 1,
                )[q] == text[q] by {
                    assert(s[i + 2 + q] == r[2 + q]);
                    assert(r[2 + q] == text[q]);
                }
            }
        },
        FormV::Tagged { tag, form, coord: c } => {
            assert(s[i] == '#');
            let te = i + 1 + tag.len() as int;
            let fr = render(*form);
            assert forall|j: int| i + 1 <= j < te implies !is_stop_char(#[trigger] s[j]) by {
                assert(r[j - i] == tag[j - i - 1]);
            }
            assert(s[te] == r[te - i]);
            assert(r[te - i] == fr[0]);
            match *form {
                FormV::List { childs, style, coord: c2 } => {
                    assert(fr[0] == '(');
                },
                FormV::Vector { childs, style, coord: c2 } => {
                    assert(fr[0] == '[');
                },
                FormV::MapForm { keys, vals, style, coord: c2 } => {
                    assert(fr[0] == '{');
                },
                _ => {
                    assert(false);
                },
            }
            assert(is_stop_char(s[te]));
            lemma_scan_atom(s, i + 2, te);
            assert(s[i + 1] == r[1]);
            assert(s[i + 1] == tag[0]);
            assert(s.subrange(i + 1, te) =~= tag) by {
                assert forall|q: int| 0 <= q < tag.len() implies s.subrange(
                    i + 1,
                    te,
                )[q] == tag[q] by {
                    assert(s[i + 1 + q] == r[1 + q]);
                    assert(r[1 + q] == tag[q]);
                }
            }
            assert(s.subrange(te, te + fr.len() as int) =~= fr) by {
                assert forall|q: int| 0 <= q < fr.len() implies s.subrange(
                    te,
                    te + fr.len() as int,
                )[q] == fr[q] by {
                    assert(s[te + q] == r[te - i + q]);
                    assert(r[te - i + q] == fr[q]);
                }
            }
            assert(fheight(*form) < fheight(f));
            lemma_read_render(s, te, *form, coord);
            assert(advance(i, te, s.len() as int) == te);
        },
        FormV::List { childs, style, coord: c } => {
            assert(s[i] == '(');
            let body = render_seq(childs);
            assert(s.subrange(i + 1, i + 1 + body.len() as int) =~= body) by {
                assert forall|q: int| 0 <= q < body.len() implies s.subrange(
                    i + 1,
                    i + 1 + body.len() as int,
                )[q] == body[q] by {
                    assert(s[i + 1 + q] == r[1 + q]);
                    assert(r[1 + q] == body[q]);
                }
            }
            assert(s[i + 1 + body.len()] == r[r.len() - 1]);
            lemma_delim_render(s, i + 1, childs, ')', coord, 0);
        },
        FormV::Vector { childs, style, coord: c } => {
            assert(s[i] == '[');
            let body = render_seq(childs);
            assert(s.subrange(i + 1, i + 1 + body.len() as int) =~= body) by {
                assert forall|q: int| 0 <= q < body.len() implies s.subrange(
                    i + 1,
                    i + 1 + body.len() as int,
                )[q] == body[q] by {
                    assert(s[i + 1 + q] == r[1 + q]);
                    assert(r[1 + q] == body[q]);
                }
            }
            assert(s[i + 1 + body.len()] == r[r.len() - 1]);
            lemma_delim_render(s, i + 1, childs, ']', coord, 0);
        },
        FormV::SetForm { childs, style, coord: c } => {
            assert(s[i] == '#');
            assert(s[i + 1] == '{');
            let body = render_seq(childs);
            assert(s.subrange(i + 2, i + 2 + body.len() as int) =~= body) by {
                assert forall|q: int| 0 <= q < body.len() implies s.subrange(
                    i + 2,
                    i + 2 + body.len() as int,
                )[q] == body[q] by {
                    assert(s[i + 2 + q] == r[2 + q]);
                    assert(r[2 + q] == body[q]);
                }
            }
            assert(s[i + 2 + body.len()] == r[r.len() - 1]);
            lemma_delim_render(s, i + 2, childs, '}', coord, 0);
        },
        FormV::MapForm { keys, vals, style, coord: c } => {
            assert(s[i] == '{');
            let inter = interleave_forms(keys, vals);
            lemma_render_pairs_interleave(keys, vals);
            let body = render_seq(inter);
            assert(s.subrange(i + 1, i + 1 + body.len() as int) =~= body) by {
                assert forall|q: int| 0 <= q < body.len() implies s.subrange(
                    i + 1,
                    i + 1 + body.len() as int,
                )[q] == body[q] by {
                    assert(s[i + 1 + q] == r[1 + q]);
                    assert(r[1 + q] == body[q]);
                }
            }
            assert(s[i + 1 + body.len()] == r[r.len() - 1]);
            lemma_interleave_forms_index(keys, vals);
            lemma_interleave_forms_sheight(keys, vals);
            lemma_delim_render(s, i + 1, inter, '}', coord, 0);
            lemma_split_interleave(keys, vals);
        },
    }
}

/// Reading well-formed siblings out of any surrounding text yields
/// exactly those siblings: their rendered texts stand one space apart
/// from position `i` on, and the closing delimiter follows directly.
#[verifier::rlimit(100)]
pub proof fn lemma_delim_render(
    s: Seq<char>,
    i: int,
    childs: Seq<FormV>,
    delim: char,
    coord: Seq<u16>,
    idx: int,
)
    requires
        wf_children(childs, coord, idx),
        0 <= idx,
        idx + childs.len() <= 0x10000,
        delim == ')' || delim == ']' || delim == '}',
        0 <= i,
        i + render_seq(childs).len() < s.len(),
        s.subrange(i, i + render_seq(childs).len() as int) == render_seq(childs),
        s[i + render_seq(childs).len()] == delim,
    ensures
        spec_read_delim(s, i, delim, coord, idx) == Some(
            (childs, i + render_seq(childs).len() + 1),
        ),
    decreases sheight(childs), 2int,
{
    let body = render_seq(childs);
    assert forall|j: int| i <= j < i + body.len() implies #[trigger] s[j] == body[j - i] by {
        assert(s.subrange(i, i + body.len() as int)[j - i] == s[j]);
    }
    if childs.len() == 0 {
        assert(s[i] == delim);
        assert(Seq::<FormV>::empty() =~= childs);
    } else {
        let c0 = childs[0];
        let r0 = render(c0);
        assert(wf_form(c0, coord.push(idx as u16)));
        lemma_render_nonempty(c0, coord.push(idx as u16));
        if childs.len() == 1 {
            assert(body == r0);
        } else {
            assert(body == r0 + seq![' '] + render_seq(childs.drop_first()));
        }
        assert(s.subrange(i, i + r0.len() as int) =~= r0) by {
            assert forall|q: int| 0 <= q < r0.len() implies s.subrange(
                i,
                i + r0.len() as int,
            )[q] == r0[q] by {
                assert(s[i + q] == body[q]);
            }
        }
        let j = i + r0.len() as int;
        if childs.len() == 1 {
            assert(s[j] == delim);
            assert(is_stop_char(s[j]));
            lemma_read_render(s, i, c0, coord.push(idx as u16));
            assert(s[i] != delim);
            assert(sep_skip(s, j) == j);
            assert(advance(i, j, s.len() as int) == j);
            assert(spec_read_delim(s, j, delim, coord, idx + 1) == Some(
                (Seq::<FormV>::empty(), j + 1),
            ));
            assert(seq![c0] + Seq::<FormV>::empty() =~= childs);
        } else {
            let rest = childs.drop_first();
            assert(body[r0.len() as int] == ' ');
            assert(s[j] == ' ');
            assert(is_stop_char(s[j]));
            lemma_read_render(s, i, c0, coord.push(idx as u16));
            assert(s[i] != delim) by {
                assert(s[i] == r0[0]);
                lemma_render_first_not_sep(c0, coord.push(idx as u16));
            }
            let j2 = j + 1;
            assert(s[j] != ',');
            assert(wf_children(rest, coord, idx + 1));
            assert(wf_form(rest[0], coord.push((idx + 1) as u16)));
            assert(sep_skip(s, j) == j2) by {
                assert(s[j] == ' ');
                lemma_render_nonempty(rest[0], coord.push((idx + 1) as u16));
                assert(render_seq(rest).len() > 0);
                assert(body[r0.len() as int + 1] == render_seq(rest)[0]);
                assert(s[j2] == body[r0.len() as int + 1]);
                assert(render_seq(rest)[0] == render(rest[0])[0]) by {
                    if rest.len() == 1 {
                    } else {
                        assert(render_seq(rest) == render(rest[0]) + seq![' '] + render_seq(
                            rest.drop_first(),
                        ));
                    }
                }
                lemma_render_first_not_sep(rest[0], coord.push((idx + 1) as u16));
            }
            assert(advance(i, j2, s.len() as int) == j2);
            assert(s.subrange(j2, j2 + render_seq(rest).len() as int) =~= render_seq(rest)) by {
                assert forall|q: int| 0 <= q < render_seq(rest).len() implies s.subrange(
                    j2,
                    j2 + render_seq(rest).len() as int,
                )[q] == render_seq(rest)[q] by {
                    assert(s[j2 + q] == body[r0.len() as int + 1 + q]);
                    assert(body[r0.len() as int + 1 + q] == render_seq(rest)[q]);
                }
            }
            assert(s[j2 + render_seq(rest).len()] == delim) by {
                assert(j2 + render_seq(rest).len() == i + body.len());
            }
            lemma_delim_render(s, j2, rest, delim, coord, idx + 1);
            assert(seq![c0] + rest =~= childs);
        }
    }
}

/// The linear text of a well-formed form starts with neither a space
/// nor a comma nor a closing delimiter.
pub proof fn lemma_render_first_not_sep(f: FormV, coord: Seq<u16>)
    requires
        wf_form(f, coord),
    ensures
        render(f).len() > 0,
        render(f)[0] != ' ',
        render(f)[0] != ',',
        render(f)[0] != ')',
        render(f)[0] != ']',
        render(f)[0] != '}',
    decreases fheight(f),
{
    match f {
        FormV::Atomic { text, coord: c } => {
            assert(!is_stop_char(text[0]));
        },
        _ => {},
    }
}

/// Round trip: reading the linear text of a well-formed form gives back
/// exactly that form. In particular, re-rendering what was read
/// reproduces the text.
pub proof fn lemma_read_render_roundtrip(f: FormV)
    requires
        wf_form(f, Seq::empty()),
    ensures
        spec_read_str(render(f)) == Some(f),
        spec_read_str(render(f)) matches Some(g) && render(g) == render(f),
{
    let s = render(f);
    lemma_render_nonempty(f, Seq::empty());
    assert(s.subrange(0, s.len() as int) =~= s);
    lemma_read_render(s, 0, f, Seq::empty());
}

} // verus!
