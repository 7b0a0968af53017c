use vstd::prelude::*;
use crate::text::{decimal, digit_char, push_decimal};

verus! {

/// A lexical unit of the dump formats: parentheses and atoms, the maximal
/// runs of other characters between blanks and parentheses.
pub enum Token {
    Open,
    Close,
    Atom(String),
}

/// A token with its atom's characters.
pub ghost enum TokenView {
    Open,
    Close,
    Atom(Seq<char>),
}

impl View for Token {
    type V = TokenView;

    open spec fn view(&self) -> TokenView {
        match self {
            Token::Open => TokenView::Open,
            Token::Close => TokenView::Close,
            Token::Atom(a) => TokenView::Atom(a@),
        }
    }
}

/// Blanks separate tokens.
pub open spec fn is_blank(c: char) -> bool {
    c == ' ' || c == '\n' || c == '\t' || c == '\r'
}

/// Characters that make up atoms.
pub open spec fn is_atom_char(c: char) -> bool {
    !is_blank(c) && c != '(' && c != ')'
}

/// The length of the atom at the start of `s`.
pub open spec fn atom_len(s: Seq<char>) -> nat
    decreases s.len(),
{
    if s.len() > 0 && is_atom_char(s[0]) {
        1 + atom_len(s.drop_first())
    } else {
        0
    }
}

/// An atom is never longer than the text it starts.
pub proof fn lemma_atom_len_bound(s: Seq<char>)
    ensures
        atom_len(s) <= s.len(),
        s.len() > 0 && is_atom_char(s[0]) ==> atom_len(s) >= 1,
    decreases s.len(),
{
    if s.len() > 0 && is_atom_char(s[0]) {
        lemma_atom_len_bound(s.drop_first());
    }
}

/// The tokens of `s`, in order.
pub open spec fn tokens(s: Seq<char>) -> Seq<TokenView>
    decreases s.len(),
{
    if s.len() == 0 {
        seq![]
    } else if is_blank(s[0]) {
        tokens(s.drop_first())
    } else if s[0] == '(' {
        seq![TokenView::Open] + tokens(s.drop_first())
    } else if s[0] == ')' {
        seq![TokenView::Close] + tokens(s.drop_first())
    } else {
        proof {
            lemma_atom_len_bound(s);
        }
        seq![TokenView::Atom(s.take(atom_len(s) as int))] + tokens(s.skip(atom_len(s) as int))
    }
}

/// `s[i..j]` is the atom that starts at `i`.
proof fn lemma_atom_len_at(s: Seq<char>, i: int, j: int)
    requires
        0 <= i <= j <= s.len(),
        forall|k: int| i <= k < j ==> is_atom_char(#[trigger] s[k]),
        j < s.len() ==> !is_atom_char(s[j]),
    ensures
        atom_len(s.skip(i)) == j - i,
    decreases j - i,
{
    if i < j {
        lemma_atom_len_at(s, i + 1, j);
        assert(s.skip(i).drop_first() =~= s.skip(i + 1));
    } else if i < s.len() {
        assert(s.skip(i)[0] == s[i]);
    }
}

fn blank(c: char) -> (r: bool)
    ensures
        r == is_blank(c),
{
    c == ' ' || c == '\n' || c == '\t' || c == '\r'
}

fn atom_char(c: char) -> (r: bool)
    ensures
        r == is_atom_char(c),
{
    !blank(c) && c != '(' && c != ')'
}

/// The tokens of `text`.
pub fn tokenize(text: &str) -> (r: Vec<Token>)
    ensures
        r@.map_values(|t: Token| t@) == tokens(text@),
{
    let n = text.unicode_len();
    let mut out: Vec<Token> = Vec::new();
    let mut i: usize = 0;
    assert(text@.skip(0) =~= text@);
    assert(out@.map_values(|t: Token| t@) + tokens(text@) =~= tokens(text@));
    while i < n
        invariant
            n == text@.len(),
            i <= n,
            tokens(text@) == out@.map_values(|t: Token| t@) + tokens(text@.skip(i as int)),
        decreases n - i,
    {
        let ghost rest = text@.skip(i as int);
        let ghost before = out@.map_values(|t: Token| t@);
        assert(rest[0] == text@[i as int]);
        assert(rest.drop_first() =~= text@.skip(i + 1));
        let c = text.get_char(i);
        if blank(c) {
            i = i + 1;
        } else if c == '(' {
            out.push(Token::Open);
            assert(out@.map_values(|t: Token| t@) =~= before + seq![TokenView::Open]);
            i = i + 1;
        } else if c == ')' {
            out.push(Token::Close);
            assert(out@.map_values(|t: Token| t@) =~= before + seq![TokenView::Close]);
            i = i + 1;
        } else {
            let mut j: usize = i + 1;
            while j < n && atom_char(text.get_char(j))
                invariant
                    n == text@.len(),
                    i < j <= n,
                    forall|k: int| i <= k < j ==> is_atom_char(#[trigger] text@[k]),
                decreases n - j,
            {
                j = j + 1;
            }
            proof {
                lemma_atom_len_at(text@, i as int, j as int);
            }
            let atom = text.substring_char(i, j).to_owned();
            out.push(Token::Atom(atom));
            assert(rest.take(j - i) =~= text@.subrange(i as int, j as int));
            assert(rest.skip(j - i) =~= text@.skip(j as int));
            assert(out@.map_values(|t: Token| t@) =~= before + seq![
                TokenView::Atom(text@.subrange(i as int, j as int)),
            ]);
            i = j;
        }
    }
    assert(text@.skip(i as int) =~= Seq::<char>::empty());
    assert(out@.map_values(|t: Token| t@) + Seq::<TokenView>::empty() =~= out@.map_values(|t: Token| t@));
    out
}

/// The characters of an atom; nothing for a parenthesis.
pub open spec fn atom_text(t: TokenView) -> Seq<char> {
    match t {
        TokenView::Atom(a) => a,
        _ => seq![],
    }
}

/// The four coordinates of a line segment, as text.
pub open spec fn line_view(l: (String, String, String, String)) -> (Seq<char>, Seq<char>, Seq<char>, Seq<char>) {
    (l.0@, l.1@, l.2@, l.3@)
}

/// The tokens start with a line: `(line x1 y1 x2 y2)`.
pub open spec fn starts_with_line(t: Seq<TokenView>) -> bool {
    &&& t.len() >= 7
    &&& t[0] == TokenView::Open
    &&& t[1] == TokenView::Atom("line"@)
    &&& t[2] is Atom
    &&& t[3] is Atom
    &&& t[4] is Atom
    &&& t[5] is Atom
    &&& t[6] == TokenView::Close
}

/// The lines that the tokens `t` list one after another; `None` when they
/// are anything else.
pub open spec fn lines_spec(t: Seq<TokenView>) -> Option<Seq<(Seq<char>, Seq<char>, Seq<char>, Seq<char>)>>
    decreases t.len(),
{
    if t.len() == 0 {
        Some(seq![])
    } else if starts_with_line(t) {
        match lines_spec(t.skip(7)) {
            Some(rest) => Some(
                seq![(atom_text(t[2]), atom_text(t[3]), atom_text(t[4]), atom_text(t[5]))] + rest,
            ),
            None => None,
        }
    } else {
        None
    }
}

/// The text of the atom `t`, when it is one.
fn atom_of(t: &Token) -> (r: Option<String>)
    ensures
        match t@ {
            TokenView::Atom(a) => r matches Some(s) && s@ == a,
            _ => r is None,
        },
{
    match t {
        Token::Atom(a) => Some(a.clone()),
        _ => None,
    }
}

/// Whether `t` is the opening parenthesis.
fn is_open(t: &Token) -> (r: bool)
    ensures
        r == (t@ == TokenView::Open),
{
    match t {
        Token::Open => true,
        _ => false,
    }
}

/// Whether `t` is the closing parenthesis.
fn is_close(t: &Token) -> (r: bool)
    ensures
        r == (t@ == TokenView::Close),
{
    match t {
        Token::Close => true,
        _ => false,
    }
}

/// Whether `t` is the atom `word`.
fn is_word(t: &Token, word: &str) -> (r: bool)
    ensures
        r == (t@ == TokenView::Atom(word@)),
{
    match t {
        Token::Atom(a) => crate::text::str_equal(a.as_str(), word),
        _ => false,
    }
}

/// The line segments listed in `text`, each `(line x1 y1 x2 y2)` with its
/// coordinates as text; `None` when the text holds anything else.
pub fn parse_lines(text: &str) -> (r: Option<Vec<(String, String, String, String)>>)
    ensures
        match r {
            Some(v) => lines_spec(tokens(text@)) == Some(v@.map_values(|l: (String, String, String, String)| line_view(l))),
            None => lines_spec(tokens(text@)) is None,
        },
{
    let toks = tokenize(text);
    let ghost t = tokens(text@);
    let mut out: Vec<(String, String, String, String)> = Vec::new();
    let mut i: usize = 0;
    assert(t.skip(0) =~= t);
    assert(Seq::<(Seq<char>, Seq<char>, Seq<char>, Seq<char>)>::empty() + Seq::<(Seq<char>, Seq<char>, Seq<char>, Seq<char>)>::empty() =~= Seq::<(Seq<char>, Seq<char>, Seq<char>, Seq<char>)>::empty());
    while i < toks.len()
        invariant
            t == tokens(text@),
            toks@.map_values(|t: Token| t@) == t,
            i <= toks@.len(),
            lines_spec(t) == match lines_spec(t.skip(i as int)) {
                Some(rest) => Some(out@.map_values(|l: (String, String, String, String)| line_view(l)) + rest),
                None => None,
            },
        decreases toks@.len() - i,
    {
        let ghost rest = t.skip(i as int);
        let ghost done = out@.map_values(|l: (String, String, String, String)| line_view(l));
        assert(rest.len() == toks@.len() - i);
        if toks.len() - i < 7 {
            assert(!starts_with_line(rest));
            assert(lines_spec(rest) is None);
            return None;
        }
        assert(forall|k: int| 0 <= k < 7 ==> rest[k] == toks@[i + k]@);
        if !is_open(&toks[i]) || !is_word(&toks[i + 1], "line") || !is_close(&toks[i + 6]) {
            assert(lines_spec(rest) is None);
            return None;
        }
        let a = atom_of(&toks[i + 2]);
        let b = atom_of(&toks[i + 3]);
        let c = atom_of(&toks[i + 4]);
        let d = atom_of(&toks[i + 5]);
        match (a, b, c, d) {
            (Some(a), Some(b), Some(c), Some(d)) => {
                let ghost l = (a@, b@, c@, d@);
                out.push((a, b, c, d));
                assert(rest.skip(7) =~= t.skip(i + 7));
                assert(out@.map_values(|l: (String, String, String, String)| line_view(l)) =~= done + seq![l]);
                proof {
                    match lines_spec(t.skip(i + 7)) {
                        Some(r2) => {
                            assert(done + seq![l] + r2 =~= done + (seq![l] + r2));
                        },
                        None => {},
                    }
                }
                i = i + 7;
            },
            _ => {
                assert(lines_spec(rest) is None);
                return None;
            },
        }
    }
    assert(t.skip(i as int) =~= Seq::<TokenView>::empty());
    assert(out@.map_values(|l: (String, String, String, String)| line_view(l)) + Seq::<(Seq<char>, Seq<char>, Seq<char>, Seq<char>)>::empty() =~= out@.map_values(|l: (String, String, String, String)| line_view(l)));
    Some(out)
}

/// A decimal digit.
pub open spec fn is_digit(c: char) -> bool {
    '0' <= c && c <= '9'
}

/// The number that the decimal digits `s` spell.
pub open spec fn digits_value(s: Seq<char>) -> nat
    decreases s.len(),
{
    if s.len() == 0 {
        0
    } else {
        digits_value(s.drop_last()) * 10 + (s.last() as nat - '0' as nat) as nat
    }
}

/// `s` spells a count: one or more decimal digits whose value fits in a
/// `usize`.
pub open spec fn is_count(s: Seq<char>) -> bool {
    &&& s.len() > 0
    &&& forall|i: int| 0 <= i < s.len() ==> is_digit(#[trigger] s[i])
    &&& digits_value(s) <= usize::MAX
}

/// Appending digits never makes the value smaller.
proof fn lemma_digits_grow(s: Seq<char>, j: int)
    requires
        0 <= j <= s.len(),
        forall|i: int| 0 <= i < s.len() ==> is_digit(#[trigger] s[i]),
    ensures
        digits_value(s.subrange(0, j)) <= digits_value(s),
    decreases s.len(),
{
    if j < s.len() {
        assert(s.drop_last().subrange(0, j) =~= s.subrange(0, j));
        assert forall|i: int| 0 <= i < s.drop_last().len() implies is_digit(#[trigger] s.drop_last()[i]) by {
            assert(s.drop_last()[i] == s[i]);
        }
        lemma_digits_grow(s.drop_last(), j);
        assert(is_digit(s[s.len() - 1]));
    } else {
        assert(s.subrange(0, j) =~= s);
    }
}

/// The count that `s` spells (see `is_count`).
pub fn parse_count(s: &str) -> (r: Option<usize>)
    ensures
        match r {
            Some(v) => is_count(s@) && v == digits_value(s@),
            None => !is_count(s@),
        },
{
    let n = s.unicode_len();
    if n == 0 {
        return None;
    }
    let mut v: usize = 0;
    let mut i: usize = 0;
    while i < n
        invariant
            n == s@.len(),
            i <= n,
            forall|k: int| 0 <= k < i ==> is_digit(#[trigger] s@[k]),
            v == digits_value(s@.subrange(0, i as int)),
        decreases n - i,
    {
        let c = s.get_char(i);
        if !('0' <= c && c <= '9') {
            return None;
        }
        let d = (c as u32 - '0' as u32) as usize;
        assert(s@.subrange(0, i + 1).drop_last() =~= s@.subrange(0, i as int));
        let next = match v.checked_mul(10) {
            Some(t) => t.checked_add(d),
            None => None,
        };
        match next {
            Some(t) => {
                v = t;
            },
            None => {
                proof {
                    if forall|k: int| 0 <= k < n ==> is_digit(#[trigger] s@[k]) {
                        lemma_digits_grow(s@, i + 1);
                    }
                }
                return None;
            },
        }
        i = i + 1;
    }
    assert(s@.subrange(0, n as int) =~= s@);
    Some(v)
}

/// The tokens start with the size of a field: `(size w h)`.
pub open spec fn starts_with_size(t: Seq<TokenView>) -> bool {
    &&& t.len() >= 5
    &&& t[0] == TokenView::Open
    &&& t[1] == TokenView::Atom("size"@)
    &&& t[2] is Atom
    &&& t[3] is Atom
    &&& t[4] == TokenView::Close
    &&& is_count(atom_text(t[2]))
    &&& is_count(atom_text(t[3]))
}

/// The tokens start with a row of `w` values: `(row v1 .. vw)`.
pub open spec fn starts_with_row(t: Seq<TokenView>, w: nat) -> bool {
    &&& t.len() >= w + 3
    &&& t[0] == TokenView::Open
    &&& t[1] == TokenView::Atom("row"@)
    &&& forall|k: int| 2 <= k < w + 2 ==> #[trigger] t[k] is Atom
    &&& t[w + 2 as int] == TokenView::Close
}

/// The values of the row at the start of `t`.
pub open spec fn row_values(t: Seq<TokenView>, w: nat) -> Seq<Seq<char>> {
    Seq::new(w, |k: int| atom_text(t[k + 2]))
}

/// The number of rows of `w` values that `t` lists one after another, and
/// their values row by row; `None` when `t` holds anything else.
pub open spec fn rows_spec(t: Seq<TokenView>, w: nat) -> Option<(nat, Seq<Seq<char>>)>
    decreases t.len(),
{
    if t.len() == 0 {
        Some((0, seq![]))
    } else if starts_with_row(t, w) {
        match rows_spec(t.skip(w + 3 as int), w) {
            Some((n, v)) => Some((n + 1, row_values(t, w) + v)),
            None => None,
        }
    } else {
        None
    }
}

/// The width, height and values (row by row) of the field that the tokens
/// `t` describe: its size, then exactly `height` rows of `width` values.
pub open spec fn field_spec(t: Seq<TokenView>) -> Option<(nat, nat, Seq<Seq<char>>)> {
    if starts_with_size(t) {
        let w = digits_value(atom_text(t[2]));
        let h = digits_value(atom_text(t[3]));
        match rows_spec(t.skip(5), w) {
            Some((n, v)) => if n == h {
                Some((w, h, v))
            } else {
                None
            },
            None => None,
        }
    } else {
        None
    }
}

/// Reads the row of `w` values at token `i` of `toks`, appending its
/// values to `values`; `false` when no such row starts there.
fn parse_row(toks: &Vec<Token>, i: usize, w: usize, values: &mut Vec<String>) -> (ok: bool)
    requires
        i <= toks@.len(),
    ensures
        ok == starts_with_row(toks@.map_values(|t: Token| t@).skip(i as int), w as nat),
        ok ==> final(values)@.map_values(|s: String| s@) == old(values)@.map_values(|s: String| s@)
            + row_values(toks@.map_values(|t: Token| t@).skip(i as int), w as nat),
{
    let ghost t = toks@.map_values(|t: Token| t@);
    let ghost rest = t.skip(i as int);
    let ghost before = values@.map_values(|s: String| s@);
    assert(rest.len() == toks@.len() - i);
    if toks.len() - i < 3 || toks.len() - i - 3 < w {
        return false;
    }
    assert(rest[0] == toks@[i as int]@);
    assert(rest[1] == toks@[i + 1]@);
    assert(rest[w + 2] == toks@[i + 2 + w]@);
    if !is_open(&toks[i]) || !is_word(&toks[i + 1], "row") || !is_close(&toks[i + 2 + w]) {
        return false;
    }
    let n = toks.len();
    let mut j: usize = 0;
    while j < w
        invariant
            n == toks@.len(),
            i + 2 + w < n,
            t == toks@.map_values(|t: Token| t@),
            rest == t.skip(i as int),
            rest.len() == toks@.len() - i,
            i + 2 + w < toks@.len(),
            j <= w,
            forall|k: int| 2 <= k < j + 2 ==> #[trigger] rest[k] is Atom,
            values@.map_values(|s: String| s@) == before + Seq::new(
                j as nat,
                |k: int| atom_text(rest[k + 2]),
            ),
        decreases w - j,
    {
        assert(rest[j + 2] == toks@[i + 2 + j]@);
        match atom_of(&toks[i + 2 + j]) {
            Some(a) => {
                assert(a@ == atom_text(rest[j + 2]));
                let ghost vprev = values@;
                values.push(a);
                assert(values@.map_values(|s: String| s@) =~= vprev.map_values(|s: String| s@).push(
                    atom_text(rest[j + 2]),
                ));
                assert(values@.map_values(|s: String| s@) =~= before + Seq::new(
                    (j + 1) as nat,
                    |k: int| atom_text(rest[k + 2]),
                ));
            },
            None => {
                return false;
            },
        }
        j = j + 1;
    }
    assert(Seq::new(w as nat, |k: int| atom_text(rest[k + 2])) =~= row_values(rest, w as nat));
    true
}

/// The field that `text` describes, `(size w h)` followed by `h` rows
/// `(row v1 .. vw)`, with its values as text; `None` when the text holds
/// anything else.
pub fn parse_field(text: &str) -> (r: Option<(usize, usize, Vec<String>)>)
    ensures
        match r {
            Some((w, h, v)) => field_spec(tokens(text@)) == Some(
                (w as nat, h as nat, v@.map_values(|s: String| s@)),
            ),
            None => field_spec(tokens(text@)) is None,
        },
{
    let toks = tokenize(text);
    let ghost t = tokens(text@);
    if toks.len() < 5 {
        return None;
    }
    assert(forall|k: int| 0 <= k < 5 ==> t[k] == toks@[k]@);
    if !is_open(&toks[0]) || !is_word(&toks[1], "size") || !is_close(&toks[4]) {
        return None;
    }
    let (ws, hs) = match (atom_of(&toks[2]), atom_of(&toks[3])) {
        (Some(a), Some(b)) => (a, b),
        _ => {
            return None;
        },
    };
    let (w, h) = match (parse_count(ws.as_str()), parse_count(hs.as_str())) {
        (Some(w), Some(h)) => (w, h),
        _ => {
            return None;
        },
    };
    assert(starts_with_size(t));
    let ghost t5 = t.skip(5);
    let mut values: Vec<String> = Vec::new();
    let mut rows: usize = 0;
    let mut i: usize = 5;
    assert(t.skip(5) =~= t5);
    assert(Seq::<Seq<char>>::empty() + Seq::<Seq<char>>::empty() =~= Seq::<Seq<char>>::empty());
    while i < toks.len()
        invariant
            t == tokens(text@),
            toks@.map_values(|t: Token| t@) == t,
            starts_with_size(t),
            w == digits_value(atom_text(t[2])),
            h == digits_value(atom_text(t[3])),
            t5 == t.skip(5),
            5 <= i <= toks@.len(),
            rows <= i,
            rows_spec(t5, w as nat) == match rows_spec(t.skip(i as int), w as nat) {
                Some((n, v)) => Some(((rows + n) as nat, values@.map_values(|s: String| s@) + v)),
                None => None,
            },
        decreases toks@.len() - i,
    {
        let ghost rest = t.skip(i as int);
        let ghost before = values@.map_values(|s: String| s@);
        if !parse_row(&toks, i, w, &mut values) {
            assert(rest.len() > 0);
            assert(rows_spec(rest, w as nat) is None);
            return None;
        }
        assert(rest.skip(w + 3) =~= t.skip(i + w + 3));
        proof {
            match rows_spec(t.skip(i + w + 3), w as nat) {
                Some((n2, v2)) => {
                    assert(before + row_values(rest, w as nat) + v2 =~= before + (row_values(rest, w as nat) + v2));
                },
                None => {},
            }
        }
        rows = rows + 1;
        i = i + w + 3;
    }
    assert(t.skip(i as int) =~= Seq::<TokenView>::empty());
    assert(values@.map_values(|s: String| s@) + Seq::<Seq<char>>::empty() =~= values@.map_values(|s: String| s@));
    if rows != h {
        return None;
    }
    Some((w, h, values))
}

/// `s` can stand as one atom: one or more atom characters.
pub open spec fn is_atom_text(s: Seq<char>) -> bool {
    s.len() > 0 && forall|i: int| 0 <= i < s.len() ==> is_atom_char(#[trigger] s[i])
}

/// Tokens do not run across a boundary that a blank or a parenthesis
/// marks: the tokens of `a + b` are those of `a` then those of `b`.
pub proof fn lemma_tokens_append(a: Seq<char>, b: Seq<char>)
    requires
        a.len() == 0 || !is_atom_char(a.last()) || b.len() == 0 || !is_atom_char(b[0]),
    ensures
        tokens(a + b) == tokens(a) + tokens(b),
    decreases a.len(),
{
    if a.len() == 0 {
        assert(a + b =~= b);
        assert(tokens(a) + tokens(b) =~= tokens(b));
    } else {
        let ab = a + b;
        assert(ab[0] == a[0]);
        if is_blank(a[0]) || a[0] == '(' || a[0] == ')' {
            assert(ab.drop_first() =~= a.drop_first() + b);
            lemma_tokens_append(a.drop_first(), b);
            if !is_blank(a[0]) {
                assert(seq![TokenView::Open] + (tokens(a.drop_first()) + tokens(b)) =~= seq![
                    TokenView::Open,
                ] + tokens(a.drop_first()) + tokens(b));
                assert(seq![TokenView::Close] + (tokens(a.drop_first()) + tokens(b)) =~= seq![
                    TokenView::Close,
                ] + tokens(a.drop_first()) + tokens(b));
            }
        } else {
            let n = atom_len(a);
            lemma_atom_len_bound(a);
            lemma_atom_run(a);
            lemma_atom_len_prefix(a, b);
            assert(ab.take(n as int) =~= a.take(n as int));
            assert(ab.skip(n as int) =~= a.skip(n as int) + b);
            lemma_tokens_append(a.skip(n as int), b);
            assert(seq![TokenView::Atom(a.take(n as int))] + (tokens(a.skip(n as int)) + tokens(b))
                =~= seq![TokenView::Atom(a.take(n as int))] + tokens(a.skip(n as int)) + tokens(b));
        }
    }
}

/// The characters of the atom at the start of `s` are atom characters, and
/// the one after it is not.
proof fn lemma_atom_run(s: Seq<char>)
    ensures
        forall|k: int| 0 <= k < atom_len(s) ==> is_atom_char(#[trigger] s[k]),
        atom_len(s) < s.len() ==> !is_atom_char(s[atom_len(s) as int]),
    decreases s.len(),
{
    lemma_atom_len_bound(s);
    if s.len() > 0 && is_atom_char(s[0]) {
        lemma_atom_run(s.drop_first());
        assert forall|k: int| 0 <= k < atom_len(s) implies is_atom_char(#[trigger] s[k]) by {
            if k > 0 {
                assert(s.drop_first()[k - 1] == s[k]);
            }
        }
        if atom_len(s) < s.len() {
            assert(s.drop_first()[atom_len(s) - 1] == s[atom_len(s) as int]);
        }
    }
}

/// An atom of `a` that stops before the end of `a`, or at a boundary,
/// stops at the same place in `a + b`.
proof fn lemma_atom_len_prefix(a: Seq<char>, b: Seq<char>)
    requires
        (a.len() > 0 && !is_atom_char(a.last())) || b.len() == 0 || !is_atom_char(b[0]),
    ensures
        atom_len(a + b) == atom_len(a),
    decreases a.len(),
{
    let ab = a + b;
    if a.len() == 0 {
        assert(ab =~= b);
        if b.len() > 0 {
            assert(!is_atom_char(b[0]));
        }
    } else {
        assert(ab[0] == a[0]);
        if is_atom_char(a[0]) {
            assert(ab.drop_first() =~= a.drop_first() + b);
            if a.len() == 1 {
                assert(a.last() == a[0]);
            }
            lemma_atom_len_prefix(a.drop_first(), b);
        }
    }
}

/// A whole atom text is one atom token.
proof fn lemma_tokens_atom(s: Seq<char>)
    requires
        is_atom_text(s),
    ensures
        tokens(s) == seq![TokenView::Atom(s)],
{
    lemma_atom_len_at(s, 0, s.len() as int);
    assert(s.skip(0) =~= s);
    assert(s.take(s.len() as int) =~= s);
    assert(s.skip(s.len() as int) =~= Seq::<char>::empty());
    assert(tokens(s.skip(s.len() as int)) =~= Seq::<TokenView>::empty());
}

/// A line segment as the lines format writes it: `(line x1 y1 x2 y2)` and
/// a line break.
pub open spec fn line_text(l: (Seq<char>, Seq<char>, Seq<char>, Seq<char>)) -> Seq<char> {
    "("@ + "line"@ + " "@ + l.0 + " "@ + l.1 + " "@ + l.2 + " "@ + l.3 + ")"@ + "\n"@
}

/// A lines dump: each segment as `line_text` writes it, in order.
pub open spec fn lines_text(ls: Seq<(Seq<char>, Seq<char>, Seq<char>, Seq<char>)>) -> Seq<char>
    decreases ls.len(),
{
    if ls.len() == 0 {
        seq![]
    } else {
        line_text(ls[0]) + lines_text(ls.drop_first())
    }
}

/// Each coordinate of every segment can stand as one atom.
pub open spec fn atoms_ok(ls: Seq<(Seq<char>, Seq<char>, Seq<char>, Seq<char>)>) -> bool {
    forall|i: int|
        0 <= i < ls.len() ==> is_atom_text(#[trigger] ls[i].0) && is_atom_text(ls[i].1)
            && is_atom_text(ls[i].2) && is_atom_text(ls[i].3)
}

/// Writing one more segment appends its text.
proof fn lemma_lines_text_push(
    ls: Seq<(Seq<char>, Seq<char>, Seq<char>, Seq<char>)>,
    l: (Seq<char>, Seq<char>, Seq<char>, Seq<char>),
)
    ensures
        lines_text(ls.push(l)) == lines_text(ls) + line_text(l),
    decreases ls.len(),
{
    if ls.len() == 0 {
        assert(ls.push(l).drop_first() =~= Seq::<(Seq<char>, Seq<char>, Seq<char>, Seq<char>)>::empty());
        assert(ls.push(l)[0] == l);
        assert(lines_text(Seq::<(Seq<char>, Seq<char>, Seq<char>, Seq<char>)>::empty()) == Seq::<char>::empty());
        assert(lines_text(ls.push(l)) =~= line_text(l) + Seq::<char>::empty());
        assert(lines_text(ls) + line_text(l) =~= line_text(l));
    } else {
        assert(ls.push(l).drop_first() =~= ls.drop_first().push(l));
        lemma_lines_text_push(ls.drop_first(), l);
        assert(ls.push(l)[0] == ls[0]);
        assert(line_text(ls[0]) + (lines_text(ls.drop_first()) + line_text(l)) =~= line_text(ls[0])
            + lines_text(ls.drop_first()) + line_text(l));
    }
}

/// The tokens of one written segment.
proof fn lemma_tokens_line(l: (Seq<char>, Seq<char>, Seq<char>, Seq<char>))
    requires
        is_atom_text(l.0),
        is_atom_text(l.1),
        is_atom_text(l.2),
        is_atom_text(l.3),
    ensures
        tokens(line_text(l)) == seq![
            TokenView::Open,
            TokenView::Atom("line"@),
            TokenView::Atom(l.0),
            TokenView::Atom(l.1),
            TokenView::Atom(l.2),
            TokenView::Atom(l.3),
            TokenView::Close,
        ],
{
    reveal_strlit("(");
    reveal_strlit("line");
    reveal_strlit(" ");
    reveal_strlit(")");
    reveal_strlit("\n");
    let open = "("@;
    let word = "line"@;
    let sp = " "@;
    let close = ")"@;
    let nl = "\n"@;
    assert(tokens(open.drop_first()) == Seq::<TokenView>::empty());
    assert(tokens(open) =~= seq![TokenView::Open]);
    lemma_tokens_atom(word);
    assert(tokens(sp.drop_first()) == Seq::<TokenView>::empty());
    assert(tokens(sp) == Seq::<TokenView>::empty());
    assert(tokens(nl.drop_first()) == Seq::<TokenView>::empty());
    assert(tokens(nl) == Seq::<TokenView>::empty());
    assert(tokens(close.drop_first()) == Seq::<TokenView>::empty());
    assert(tokens(close) =~= seq![TokenView::Close]);
    lemma_tokens_atom(l.0);
    lemma_tokens_atom(l.1);
    lemma_tokens_atom(l.2);
    lemma_tokens_atom(l.3);
    let s1 = open + word;
    lemma_tokens_append(open, word);
    let s2 = s1 + sp;
    lemma_tokens_append(s1, sp);
    let s3 = s2 + l.0;
    lemma_tokens_append(s2, l.0);
    let s4 = s3 + sp;
    lemma_tokens_append(s3, sp);
    let s5 = s4 + l.1;
    lemma_tokens_append(s4, l.1);
    let s6 = s5 + sp;
    lemma_tokens_append(s5, sp);
    let s7 = s6 + l.2;
    lemma_tokens_append(s6, l.2);
    let s8 = s7 + sp;
    lemma_tokens_append(s7, sp);
    let s9 = s8 + l.3;
    lemma_tokens_append(s8, l.3);
    let s10 = s9 + close;
    lemma_tokens_append(s9, close);
    let s11 = s10 + nl;
    lemma_tokens_append(s10, nl);
    assert(tokens(s11) =~= seq![
        TokenView::Open,
        TokenView::Atom("line"@),
        TokenView::Atom(l.0),
        TokenView::Atom(l.1),
        TokenView::Atom(l.2),
        TokenView::Atom(l.3),
        TokenView::Close,
    ]);
}

/// Reading back a written lines dump gives the segments that were written.
pub proof fn lemma_lines_roundtrip(ls: Seq<(Seq<char>, Seq<char>, Seq<char>, Seq<char>)>)
    requires
        atoms_ok(ls),
    ensures
        lines_spec(tokens(lines_text(ls))) == Some(ls),
    decreases ls.len(),
{
    if ls.len() == 0 {
        assert(tokens(Seq::<char>::empty()) == Seq::<TokenView>::empty());
    } else {
        let l = ls[0];
        let rest = ls.drop_first();
        assert(atoms_ok(rest)) by {
            assert forall|i: int| 0 <= i < rest.len() implies is_atom_text(#[trigger] rest[i].0)
                && is_atom_text(rest[i].1) && is_atom_text(rest[i].2) && is_atom_text(rest[i].3) by {
                assert(rest[i] == ls[i + 1]);
                assert(is_atom_text(ls[i + 1].0));
            }
        }
        lemma_lines_roundtrip(rest);
        lemma_tokens_line(l);
        reveal_strlit("\n");
        let lt = line_text(l);
        assert(lt.last() == '\n');
        lemma_tokens_append(lt, lines_text(rest));
        let t = tokens(lt) + tokens(lines_text(rest));
        assert(t.skip(7) =~= tokens(lines_text(rest)));
        assert(seq![l] + rest =~= ls);
    }
}

/// Writes the segments `lines` as a lines dump (see `lines_text`).
pub fn write_lines(lines: &Vec<(String, String, String, String)>) -> (r: String)
    ensures
        r@ == lines_text(lines@.map_values(|l: (String, String, String, String)| line_view(l))),
{
    let mut out = String::new();
    let mut i: usize = 0;
    while i < lines.len()
        invariant
            i <= lines@.len(),
            out@ == lines_text(
                lines@.subrange(0, i as int).map_values(|l: (String, String, String, String)| line_view(l)),
            ),
        decreases lines@.len() - i,
    {
        let ghost before = lines@.subrange(0, i as int).map_values(|l: (String, String, String, String)| line_view(l));
        let (a, b, c, d) = &lines[i];
        out.append("(");
        out.append("line");
        out.append(" ");
        out.append(a.as_str());
        out.append(" ");
        out.append(b.as_str());
        out.append(" ");
        out.append(c.as_str());
        out.append(" ");
        out.append(d.as_str());
        out.append(")");
        out.append("\n");
        proof {
            let l = line_view(lines@[i as int]);
            lemma_lines_text_push(before, l);
            assert(lines@.subrange(0, i + 1).map_values(|l: (String, String, String, String)| line_view(l))
                =~= before.push(l));
        }
        i = i + 1;
    }
    assert(lines@.subrange(0, i as int) =~= lines@);
    out
}

/// A decimal rendering spells the number it renders.
pub proof fn lemma_decimal_count(n: nat)
    ensures
        decimal(n).len() > 0,
        forall|i: int| 0 <= i < decimal(n).len() ==> is_digit(#[trigger] decimal(n)[i]),
        digits_value(decimal(n)) == n,
    decreases n,
{
    let d = digit_char(n % 10);
    assert(is_digit(d) && (d as nat - '0' as nat) as nat == n % 10);
    if n >= 10 {
        lemma_decimal_count(n / 10);
        let s = decimal(n);
        assert(s.drop_last() =~= decimal(n / 10));
        assert forall|i: int| 0 <= i < s.len() implies is_digit(#[trigger] s[i]) by {
            if i < s.len() - 1 {
                assert(s[i] == decimal(n / 10)[i]);
            }
        }
        assert(s.last() == d);
        assert(n == (n / 10) * 10 + n % 10) by (nonlinear_arith);
        assert(digits_value(s) == digits_value(decimal(n / 10)) * 10 + (d as nat - '0' as nat) as nat);
        assert(digits_value(decimal(n / 10)) == n / 10);
        assert(digits_value(s) == (n / 10) * 10 + n % 10);
        assert(digits_value(s) == n);
    } else {
        assert(digits_value(decimal(n)) == digits_value(decimal(n).drop_last()) * 10 + (d as nat - '0' as nat) as nat);
        assert(digits_value(Seq::<char>::empty()) == 0);
        assert(decimal(n).drop_last() =~= Seq::<char>::empty());
        assert(decimal(n).last() == d);
        assert(n % 10 == n);
    }
}

/// The values of a row, each after a space.
pub open spec fn spaced(r: Seq<Seq<char>>) -> Seq<char>
    decreases r.len(),
{
    if r.len() == 0 {
        seq![]
    } else {
        " "@ + r[0] + spaced(r.drop_first())
    }
}

/// A row of a field as the field format writes it: `(row v1 .. vw)` and a
/// line break.
pub open spec fn row_text(r: Seq<Seq<char>>) -> Seq<char> {
    "("@ + "row"@ + spaced(r) + ")"@ + "\n"@
}

/// The `h` rows of `w` values of `values`, row by row.
pub open spec fn rows_text(values: Seq<Seq<char>>, w: nat, h: nat) -> Seq<char>
    decreases h,
{
    if h == 0 {
        seq![]
    } else {
        row_text(values.take(w as int)) + rows_text(values.skip(w as int), w, (h - 1) as nat)
    }
}

/// A field dump: `(size w h)` and a line break, then the rows.
pub open spec fn field_text(w: nat, h: nat, values: Seq<Seq<char>>) -> Seq<char> {
    "("@ + "size"@ + " "@ + decimal(w) + " "@ + decimal(h) + ")"@ + "\n"@ + rows_text(values, w, h)
}

/// Every value can stand as one atom.
pub open spec fn values_ok(values: Seq<Seq<char>>) -> bool {
    forall|i: int| 0 <= i < values.len() ==> is_atom_text(#[trigger] values[i])
}

/// The tokens of spaced values are the values.
proof fn lemma_tokens_spaced(r: Seq<Seq<char>>)
    requires
        values_ok(r),
    ensures
        tokens(spaced(r)) == r.map_values(|a: Seq<char>| TokenView::Atom(a)),
        r.len() > 0 ==> spaced(r).len() > 0 && spaced(r)[0] == ' ',
    decreases r.len(),
{
    reveal_strlit(" ");
    if r.len() == 0 {
        assert(tokens(Seq::<char>::empty()) =~= r.map_values(|a: Seq<char>| TokenView::Atom(a)));
    } else {
        let rest = r.drop_first();
        assert(values_ok(rest)) by {
            assert forall|i: int| 0 <= i < rest.len() implies is_atom_text(#[trigger] rest[i]) by {
                assert(rest[i] == r[i + 1]);
                assert(is_atom_text(r[i + 1]));
            }
        }
        lemma_tokens_spaced(rest);
        assert(is_atom_text(r[0]));
        let sp = " "@;
        assert(tokens(sp.drop_first()) == Seq::<TokenView>::empty());
        assert(tokens(sp) == Seq::<TokenView>::empty());
        lemma_tokens_atom(r[0]);
        lemma_tokens_append(sp, r[0]);
        lemma_tokens_append(sp + r[0], spaced(rest));
        assert(tokens(spaced(r)) =~= r.map_values(|a: Seq<char>| TokenView::Atom(a)));
    }
}

/// The tokens of a written row.
proof fn lemma_tokens_row(r: Seq<Seq<char>>)
    requires
        values_ok(r),
    ensures
        tokens(row_text(r)) == seq![TokenView::Open, TokenView::Atom("row"@)] + r.map_values(
            |a: Seq<char>| TokenView::Atom(a),
        ) + seq![TokenView::Close],
{
    reveal_strlit("(");
    reveal_strlit("row");
    reveal_strlit(")");
    reveal_strlit("\n");
    let open = "("@;
    let word = "row"@;
    let close = ")"@;
    let nl = "\n"@;
    assert(tokens(open.drop_first()) == Seq::<TokenView>::empty());
    assert(tokens(open) =~= seq![TokenView::Open]);
    lemma_tokens_atom(word);
    assert(tokens(nl.drop_first()) == Seq::<TokenView>::empty());
    assert(tokens(nl) == Seq::<TokenView>::empty());
    assert(tokens(close.drop_first()) == Seq::<TokenView>::empty());
    assert(tokens(close) =~= seq![TokenView::Close]);
    lemma_tokens_spaced(r);
    lemma_tokens_append(open, word);
    lemma_tokens_append(open + word, spaced(r));
    lemma_tokens_append(open + word + spaced(r), close);
    lemma_tokens_append(open + word + spaced(r) + close, nl);
    assert(tokens(row_text(r)) =~= seq![TokenView::Open, TokenView::Atom("row"@)] + r.map_values(
        |a: Seq<char>| TokenView::Atom(a),
    ) + seq![TokenView::Close]);
}

/// Reading back written rows gives their number and values.
proof fn lemma_rows_roundtrip(values: Seq<Seq<char>>, w: nat, h: nat)
    requires
        values.len() == w * h,
        values_ok(values),
    ensures
        rows_spec(tokens(rows_text(values, w, h)), w) == Some((h, values)),
    decreases h,
{
    if h == 0 {
        assert(values.len() == 0) by (nonlinear_arith)
            requires
                values.len() == w * h,
                h == 0,
        ;
        assert(values =~= Seq::<Seq<char>>::empty());
        assert(tokens(Seq::<char>::empty()) == Seq::<TokenView>::empty());
    } else {
        assert(values.len() == w + w * (h - 1)) by (nonlinear_arith)
            requires
                values.len() == w * h,
                h >= 1,
        ;
        let row = values.take(w as int);
        let rest = values.skip(w as int);
        assert(values_ok(row)) by {
            assert forall|i: int| 0 <= i < row.len() implies is_atom_text(#[trigger] row[i]) by {
                assert(row[i] == values[i]);
            }
        }
        assert(values_ok(rest)) by {
            assert forall|i: int| 0 <= i < rest.len() implies is_atom_text(#[trigger] rest[i]) by {
                assert(rest[i] == values[i + w]);
            }
        }
        lemma_rows_roundtrip(rest, w, (h - 1) as nat);
        lemma_tokens_row(row);
        reveal_strlit("\n");
        let rt = row_text(row);
        assert(rt.last() == '\n');
        lemma_tokens_append(rt, rows_text(rest, w, (h - 1) as nat));
        let t = tokens(rt) + tokens(rows_text(rest, w, (h - 1) as nat));
        assert(t.skip(w + 3 as int) =~= tokens(rows_text(rest, w, (h - 1) as nat)));
        assert(starts_with_row(t, w)) by {
            assert forall|k: int| 2 <= k < w + 2 implies #[trigger] t[k] is Atom by {
                assert(t[k] == TokenView::Atom(row[k - 2]));
            }
        }
        assert(row_values(t, w) =~= row);
        assert(row + rest =~= values);
    }
}

/// Reading back a written field dump gives its size and values.
pub proof fn lemma_field_roundtrip(w: nat, h: nat, values: Seq<Seq<char>>)
    requires
        w <= usize::MAX,
        h <= usize::MAX,
        values.len() == w * h,
        values_ok(values),
    ensures
        field_spec(tokens(field_text(w, h, values))) == Some((w, h, values)),
{
    reveal_strlit("(");
    reveal_strlit("size");
    reveal_strlit(" ");
    reveal_strlit(")");
    reveal_strlit("\n");
    let open = "("@;
    let word = "size"@;
    let sp = " "@;
    let close = ")"@;
    let nl = "\n"@;
    let dw = decimal(w);
    let dh = decimal(h);
    lemma_decimal_count(w);
    lemma_decimal_count(h);
    assert(is_atom_text(dw)) by {
        assert forall|i: int| 0 <= i < dw.len() implies is_atom_char(#[trigger] dw[i]) by {
            assert(is_digit(dw[i]));
        }
    }
    assert(is_atom_text(dh)) by {
        assert forall|i: int| 0 <= i < dh.len() implies is_atom_char(#[trigger] dh[i]) by {
            assert(is_digit(dh[i]));
        }
    }
    assert(tokens(open.drop_first()) == Seq::<TokenView>::empty());
    assert(tokens(open) =~= seq![TokenView::Open]);
    lemma_tokens_atom(word);
    assert(tokens(sp.drop_first()) == Seq::<TokenView>::empty());
    assert(tokens(sp) == Seq::<TokenView>::empty());
    assert(tokens(nl.drop_first()) == Seq::<TokenView>::empty());
    assert(tokens(nl) == Seq::<TokenView>::empty());
    assert(tokens(close.drop_first()) == Seq::<TokenView>::empty());
    assert(tokens(close) =~= seq![TokenView::Close]);
    lemma_tokens_atom(dw);
    lemma_tokens_atom(dh);
    let s1 = open + word;
    lemma_tokens_append(open, word);
    let s2 = s1 + sp;
    lemma_tokens_append(s1, sp);
    let s3 = s2 + dw;
    lemma_tokens_append(s2, dw);
    let s4 = s3 + sp;
    lemma_tokens_append(s3, sp);
    let s5 = s4 + dh;
    lemma_tokens_append(s4, dh);
    let s6 = s5 + close;
    lemma_tokens_append(s5, close);
    let s7 = s6 + nl;
    lemma_tokens_append(s6, nl);
    let header = seq![
        TokenView::Open,
        TokenView::Atom(word),
        TokenView::Atom(dw),
        TokenView::Atom(dh),
        TokenView::Close,
    ];
    assert(tokens(s7) =~= header);
    let rows = rows_text(values, w, h);
    lemma_tokens_append(s7, rows);
    lemma_rows_roundtrip(values, w, h);
    let t = tokens(s7 + rows);
    assert(t =~= header + tokens(rows));
    assert(t.skip(5) =~= tokens(rows));
    assert(starts_with_size(t));
}

/// Writes a field dump of `h` rows of `w` values (see `field_text`).
pub fn write_field(w: usize, h: usize, values: &Vec<String>) -> (r: String)
    requires
        values@.len() == w * h,
    ensures
        r@ == field_text(w as nat, h as nat, values@.map_values(|s: String| s@)),
{
    let ghost vals = values@.map_values(|s: String| s@);
    let mut out = String::new();
    out.append("(");
    out.append("size");
    out.append(" ");
    push_decimal(&mut out, w);
    out.append(" ");
    push_decimal(&mut out, h);
    out.append(")");
    out.append("\n");
    let ghost header = out@;
    let n = values.len();
    let mut r: usize = 0;
    let mut k: usize = 0;
    assert(vals.skip(0) =~= vals);
    while r < h
        invariant
            vals == values@.map_values(|s: String| s@),
            n == values@.len(),
            values@.len() == w * h,
            r <= h,
            k == r * w,
            k <= values@.len(),
            header + rows_text(vals, w as nat, h as nat) == out@ + rows_text(
                vals.skip(k as int),
                w as nat,
                (h - r) as nat,
            ),
        decreases h - r,
    {
        assert(k + w <= values@.len()) by (nonlinear_arith)
            requires
                k == r * w,
                r < h,
                values@.len() == w * h,
        ;
        let ghost rest = vals.skip(k as int);
        let ghost row = rest.take(w as int);
        let ghost before = out@;
        out.append("(");
        out.append("row");
        assert(row.skip(0) =~= row);
        let mut j: usize = 0;
        while j < w
            invariant
                vals == values@.map_values(|s: String| s@),
                n == values@.len(),
                k + w <= values@.len(),
                rest == vals.skip(k as int),
                row == rest.take(w as int),
                j <= w,
                out@ + spaced(row.skip(j as int)) == before + "("@ + "row"@ + spaced(row),
            decreases w - j,
        {
            let ghost sub = row.skip(j as int);
            assert(sub.drop_first() =~= row.skip(j + 1));
            assert(sub[0] == values@[k + j as int]@);
            out.append(" ");
            out.append(values[k + j].as_str());
            j = j + 1;
        }
        assert(row.skip(w as int) =~= Seq::<Seq<char>>::empty());
        out.append(")");
        out.append("\n");
        proof {
            assert(rest.skip(w as int) =~= vals.skip(k + w));
            assert(before + row_text(row) =~= out@);
            assert(r * w + w == (r + 1) * w) by (nonlinear_arith);
        }
        k = k + w;
        r = r + 1;
    }
    assert(rows_text(vals.skip(k as int), w as nat, 0) == Seq::<char>::empty());
    out
}

} // verus!
