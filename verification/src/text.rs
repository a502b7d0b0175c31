//! Text processing for the search engine: whitespace normalization,
//! word splitting, tokenization of indexed fields, and the helpers that
//! build strings character by character.
//!
//! Whitespace and case handling are ASCII: the engine treats the four
//! ASCII whitespace characters as separators and folds only ASCII
//! letters; all other characters pass through unchanged.

use vstd::prelude::*;

verus! {

/// The characters that separate query words.
pub open spec fn is_space_char(c: char) -> bool {
    c == ' ' || c == '\t' || c == '\n' || c == '\r'
}

/// Runtime test matching [`is_space_char`].
pub fn is_space(c: char) -> (b: bool)
    ensures
        b == is_space_char(c),
{
    c == ' ' || c == '\t' || c == '\n' || c == '\r'
}

/// ASCII lowercase folding of one character; everything but 'A'..='Z'
/// passes through unchanged.
pub open spec fn lower_char(c: char) -> char {
    match c {
        'A' => 'a',
        'B' => 'b',
        'C' => 'c',
        'D' => 'd',
        'E' => 'e',
        'F' => 'f',
        'G' => 'g',
        'H' => 'h',
        'I' => 'i',
        'J' => 'j',
        'K' => 'k',
        'L' => 'l',
        'M' => 'm',
        'N' => 'n',
        'O' => 'o',
        'P' => 'p',
        'Q' => 'q',
        'R' => 'r',
        'S' => 's',
        'T' => 't',
        'U' => 'u',
        'V' => 'v',
        'W' => 'w',
        'X' => 'x',
        'Y' => 'y',
        'Z' => 'z',
        _ => c,
    }
}

/// Runtime folding matching [`lower_char`].
pub fn lower(c: char) -> (r: char)
    ensures
        r == lower_char(c),
{
    match c {
        'A' => 'a',
        'B' => 'b',
        'C' => 'c',
        'D' => 'd',
        'E' => 'e',
        'F' => 'f',
        'G' => 'g',
        'H' => 'h',
        'I' => 'i',
        'J' => 'j',
        'K' => 'k',
        'L' => 'l',
        'M' => 'm',
        'N' => 'n',
        'O' => 'o',
        'P' => 'p',
        'Q' => 'q',
        'R' => 'r',
        'S' => 's',
        'T' => 't',
        'U' => 'u',
        'V' => 'v',
        'W' => 'w',
        'X' => 'x',
        'Y' => 'y',
        'Z' => 'z',
        _ => c,
    }
}

/// The characters that belong to an indexed token: ASCII alphanumerics
/// and everything beyond ASCII.
pub open spec fn is_token_char(c: char) -> bool {
    ('a' <= c && c <= 'z') || ('A' <= c && c <= 'Z') || ('0' <= c && c <= '9') || c > '\u{7f}'
}

/// Runtime test matching [`is_token_char`].
pub fn is_token(c: char) -> (b: bool)
    ensures
        b == is_token_char(c),
{
    ('a' <= c && c <= 'z') || ('A' <= c && c <= 'Z') || ('0' <= c && c <= '9') || c > '\u{7f}'
}

/// Character-by-character string equality.
pub fn str_eq(a: &str, b: &str) -> (r: bool)
    ensures
        r == (a@ == b@),
{
    let na = a.unicode_len();
    let nb = b.unicode_len();
    if na != nb {
        return false;
    }
    let mut i: usize = 0;
    while i < na
        invariant
            i <= na == a@.len(),
            na == nb == b@.len(),
            forall|k: int| 0 <= k < i ==> a@[k] == b@[k],
        decreases na - i,
    {
        if a.get_char(i) != b.get_char(i) {
            return false;
        }
        i = i + 1;
    }
    proof {
        assert(a@ =~= b@);
    }
    true
}

/// Lexicographic order on character sequences, by code point.
pub open spec fn lex_le(a: Seq<char>, b: Seq<char>) -> bool
    decreases a.len(),
{
    if a.len() == 0 {
        true
    } else if b.len() == 0 {
        false
    } else if a[0] < b[0] {
        true
    } else if b[0] < a[0] {
        false
    } else {
        lex_le(a.drop_first(), b.drop_first())
    }
}

/// Any two sequences are ordered one way or the other.
pub proof fn lemma_lex_le_total(a: Seq<char>, b: Seq<char>)
    ensures
        lex_le(a, b) || lex_le(b, a),
    decreases a.len(),
{
    if a.len() > 0 && b.len() > 0 && !(a[0] < b[0]) && !(b[0] < a[0]) {
        lemma_lex_le_total(a.drop_first(), b.drop_first());
    }
}

/// Sequences ordered both ways are equal.
pub proof fn lemma_lex_le_antisym(a: Seq<char>, b: Seq<char>)
    requires
        lex_le(a, b),
        lex_le(b, a),
    ensures
        a == b,
    decreases a.len(),
{
    if a.len() == 0 {
        assert(b.len() == 0);
        assert(a =~= b);
    } else {
        assert(b.len() > 0);
        assert(!(a[0] < b[0]) && !(b[0] < a[0]));
        assert(a[0] == b[0]);
        lemma_lex_le_antisym(a.drop_first(), b.drop_first());
        assert(a.drop_first() == b.drop_first());
        assert(a.len() == b.len());
        assert forall|i: int| 0 <= i < a.len() implies a[i] == b[i] by {
            if i > 0 {
                assert(a[i] == a.drop_first()[i - 1]);
                assert(b[i] == b.drop_first()[i - 1]);
            }
        }
        assert(a =~= b);
    }
}

/// The order is transitive.
pub proof fn lemma_lex_le_trans(a: Seq<char>, b: Seq<char>, c: Seq<char>)
    requires
        lex_le(a, b),
        lex_le(b, c),
    ensures
        lex_le(a, c),
    decreases a.len(),
{
    if a.len() > 0 && b.len() > 0 && c.len() > 0 {
        if !(a[0] < b[0]) && !(b[0] < a[0]) && !(b[0] < c[0]) && !(c[0] < b[0]) {
            lemma_lex_le_trans(a.drop_first(), b.drop_first(), c.drop_first());
        }
    }
}

/// Decides [`lex_le`] on two strings.
pub fn str_le(a: &str, b: &str) -> (r: bool)
    ensures
        r == lex_le(a@, b@),
{
    let na = a.unicode_len();
    let nb = b.unicode_len();
    let mut i: usize = 0;
    proof {
        assert(a@.skip(0) =~= a@);
        assert(b@.skip(0) =~= b@);
    }
    while i < na && i < nb
        invariant
            na == a@.len(),
            nb == b@.len(),
            i <= na,
            i <= nb,
            lex_le(a@, b@) == lex_le(a@.skip(i as int), b@.skip(i as int)),
            lex_le(b@, a@) == lex_le(b@.skip(i as int), a@.skip(i as int)),
        decreases na - i,
    {
        let ca = a.get_char(i);
        let cb = b.get_char(i);
        proof {
            assert(a@.skip(i as int)[0] == a@[i as int]);
            assert(b@.skip(i as int)[0] == b@[i as int]);
        }
        if ca < cb {
            return true;
        }
        if cb < ca {
            return false;
        }
        proof {
            assert(a@.skip(i as int).drop_first() =~= a@.skip(i + 1));
            assert(b@.skip(i as int).drop_first() =~= b@.skip(i + 1));
        }
        i = i + 1;
    }
    if i >= na {
        proof {
            assert(a@.skip(i as int).len() == 0);
        }
        true
    } else {
        proof {
            assert(b@.skip(i as int).len() == 0);
            assert(a@.skip(i as int).len() > 0);
        }
        false
    }
}

/// A copy of an optional string with the same characters.
pub fn clone_opt_string(s: &Option<String>) -> (r: Option<String>)
    ensures
        match s {
            Some(v) => r matches Some(w) && w@ == v@,
            None => r is None,
        },
{
    match s {
        Some(v) => Some(v.clone()),
        None => None,
    }
}

/// A copy of a string vector, element for element.
pub fn clone_strings(v: &Vec<String>) -> (r: Vec<String>)
    ensures
        r@.len() == v@.len(),
        forall|i: int| 0 <= i < v@.len() ==> r@[i]@ == #[trigger] v@[i]@,
{
    let mut r: Vec<String> = Vec::new();
    let mut i: usize = 0;
    while i < v.len()
        invariant
            i <= v@.len(),
            r@.len() == i,
            forall|k: int| 0 <= k < i ==> r@[k]@ == #[trigger] v@[k]@,
        decreases v@.len() - i,
    {
        r.push(v[i].clone());
        i = i + 1;
    }
    r
}

/// A copy of a character vector.
pub fn copy_chars(v: &Vec<char>) -> (r: Vec<char>)
    ensures
        r@ == v@,
{
    let mut r: Vec<char> = Vec::new();
    let mut i: usize = 0;
    while i < v.len()
        invariant
            i <= v@.len(),
            r@ == v@.take(i as int),
        decreases v@.len() - i,
    {
        r.push(v[i]);
        proof {
            assert(v@.take(i + 1) =~= v@.take(i as int).push(v@[i as int]));
        }
        i = i + 1;
    }
    proof {
        assert(v@.take(v@.len() as int) =~= v@);
    }
    r
}

/// The longest space-free prefix of `s`.
pub open spec fn spec_first_word(s: Seq<char>) -> Seq<char>
    decreases s.len(),
{
    if s.len() == 0 || is_space_char(s[0]) {
        Seq::empty()
    } else {
        seq![s[0]] + spec_first_word(s.drop_first())
    }
}

/// The first word of a string headed by a non-space character is nonempty
/// and no longer than the string.
pub proof fn lemma_first_word_len(s: Seq<char>)
    ensures
        spec_first_word(s).len() <= s.len(),
        s.len() > 0 && !is_space_char(s[0]) ==> spec_first_word(s).len() >= 1,
    decreases s.len(),
{
    if s.len() > 0 && !is_space_char(s[0]) {
        lemma_first_word_len(s.drop_first());
    }
}

/// The maximal space-free runs of `s`, in order.
pub open spec fn spec_words(s: Seq<char>) -> Seq<Seq<char>>
    decreases s.len(),
    via spec_words_decreases
{
    if s.len() == 0 {
        Seq::empty()
    } else if is_space_char(s[0]) {
        spec_words(s.drop_first())
    } else {
        seq![spec_first_word(s)] + spec_words(s.skip(spec_first_word(s).len() as int))
    }
}

#[via_fn]
proof fn spec_words_decreases(s: Seq<char>) {
    if s.len() > 0 && !is_space_char(s[0]) {
        lemma_first_word_len(s);
    }
}

/// The words joined back together with single spaces.
pub open spec fn spec_join_words(ws: Seq<Seq<char>>) -> Seq<char>
    decreases ws.len(),
{
    if ws.len() == 0 {
        Seq::empty()
    } else if ws.len() == 1 {
        ws[0]
    } else {
        ws[0] + seq![' '] + spec_join_words(ws.drop_first())
    }
}

/// Whitespace normalization: runs of whitespace collapse to single
/// spaces, and leading and trailing whitespace disappears.
pub open spec fn spec_normalize(s: Seq<char>) -> Seq<char> {
    spec_join_words(spec_words(s))
}

/// A word is space-free.
pub open spec fn word_shaped(w: Seq<char>) -> bool {
    w.len() > 0 && (forall|i: int| 0 <= i < w.len() ==> !is_space_char(w[i]))
}

/// Every word produced by [`spec_words`] is nonempty and space-free.
pub proof fn lemma_words_shaped(s: Seq<char>)
    ensures
        forall|i: int| 0 <= i < spec_words(s).len() ==> word_shaped(#[trigger] spec_words(s)[i]),
    decreases s.len(),
{
    if s.len() == 0 {
    } else if is_space_char(s[0]) {
        lemma_words_shaped(s.drop_first());
        assert forall|i: int| 0 <= i < spec_words(s).len() implies word_shaped(
            #[trigger] spec_words(s)[i],
        ) by {
            assert(spec_words(s)[i] == spec_words(s.drop_first())[i]);
        }
    } else {
        lemma_first_word_shaped(s);
        lemma_first_word_len(s);
        let w = spec_first_word(s);
        let rest_words = spec_words(s.skip(w.len() as int));
        lemma_words_shaped(s.skip(w.len() as int));
        assert(spec_words(s) == seq![w] + rest_words);
        assert forall|i: int| 0 <= i < spec_words(s).len() implies word_shaped(
            #[trigger] spec_words(s)[i],
        ) by {
            if i > 0 {
                assert(spec_words(s)[i] == rest_words[i - 1]);
            }
        }
    }
}

/// The first word of a string headed by a non-space character is
/// space-free, and the string continues with a space or ends where the
/// word ends.
pub proof fn lemma_first_word_shaped(s: Seq<char>)
    requires
        s.len() > 0,
        !is_space_char(s[0]),
    ensures
        word_shaped(spec_first_word(s)),
        spec_first_word(s) == s.take(spec_first_word(s).len() as int),
        spec_first_word(s).len() < s.len() ==> is_space_char(s[spec_first_word(s).len() as int]),
    decreases s.len(),
{
    let w = spec_first_word(s);
    let rest = s.drop_first();
    lemma_first_word_len(s);
    if rest.len() > 0 && !is_space_char(rest[0]) {
        lemma_first_word_shaped(rest);
        let wr = spec_first_word(rest);
        assert(w == seq![s[0]] + wr);
        assert forall|i: int| 0 <= i < w.len() implies !is_space_char(w[i]) by {
            if i > 0 {
                assert(w[i] == wr[i - 1]);
            }
        }
        assert(wr == rest.take(wr.len() as int));
        assert(w =~= s.take(w.len() as int));
        if w.len() < s.len() {
            assert(s[w.len() as int] == rest[wr.len() as int]);
        }
    } else {
        assert(spec_first_word(rest) =~= Seq::empty());
        assert(w =~= seq![s[0]]);
        assert(w =~= s.take(1));
    }
}

/// A space-free word followed by a space-headed (or empty) remainder is
/// its own first word.
proof fn lemma_first_word_of_concat(w: Seq<char>, rest: Seq<char>)
    requires
        word_shaped(w),
        rest.len() == 0 || is_space_char(rest[0]),
    ensures
        spec_first_word(w + rest) == w,
    decreases w.len(),
{
    let s = w + rest;
    assert(s[0] == w[0]);
    if w.len() == 1 {
        assert(s.drop_first() =~= rest);
        assert(spec_first_word(rest) =~= Seq::empty());
        assert(spec_first_word(s) =~= w);
    } else {
        let wt = w.drop_first();
        assert forall|i: int| 0 <= i < wt.len() implies !is_space_char(wt[i]) by {
            assert(wt[i] == w[i + 1]);
        }
        lemma_first_word_of_concat(wt, rest);
        assert(s.drop_first() =~= wt + rest);
        assert(spec_first_word(s) =~= w);
    }
}

/// Splitting the joined form of well-shaped words recovers the words.
proof fn lemma_words_of_join(ws: Seq<Seq<char>>)
    requires
        forall|i: int| 0 <= i < ws.len() ==> word_shaped(#[trigger] ws[i]),
    ensures
        spec_words(spec_join_words(ws)) == ws,
    decreases ws.len(),
{
    if ws.len() == 0 {
        assert(spec_words(spec_join_words(ws)) =~= ws);
    } else if ws.len() == 1 {
        let w = ws[0];
        assert(word_shaped(w));
        assert(spec_join_words(ws) == w);
        assert(w + Seq::<char>::empty() =~= w);
        lemma_first_word_of_concat(w, Seq::empty());
        assert(spec_first_word(w) == w);
        assert(w.skip(w.len() as int) =~= Seq::<char>::empty());
        assert(spec_words(Seq::<char>::empty()) =~= Seq::<Seq<char>>::empty());
        assert(spec_words(w) == seq![spec_first_word(w)] + spec_words(
            w.skip(spec_first_word(w).len() as int),
        ));
        assert(spec_words(w) =~= seq![w]);
        assert(spec_words(spec_join_words(ws)) =~= ws);
    } else {
        let w = ws[0];
        let rest = spec_join_words(ws.drop_first());
        let s = spec_join_words(ws);
        let tail = seq![' '] + rest;
        assert(s == w + seq![' '] + rest);
        assert(s =~= w + tail);
        lemma_first_word_of_concat(w, tail);
        assert(spec_first_word(s) == w);
        assert(s.skip(w.len() as int) =~= tail);
        assert(tail.drop_first() =~= rest);
        assert forall|i: int| 0 <= i < ws.drop_first().len() implies word_shaped(
            #[trigger] ws.drop_first()[i],
        ) by {
            assert(ws.drop_first()[i] == ws[i + 1]);
        }
        lemma_words_of_join(ws.drop_first());
        assert(spec_words(tail) == ws.drop_first());
        assert(spec_words(s) =~= seq![w] + ws.drop_first());
        assert(spec_words(s) =~= ws);
    }
}

/// Normalizing a query never changes its words: the search engine sees
/// the same word list whether or not the query was normalized first.
pub proof fn lemma_words_normalize(s: Seq<char>)
    ensures
        spec_words(spec_normalize(s)) == spec_words(s),
{
    lemma_words_shaped(s);
    lemma_words_of_join(spec_words(s));
}

/// Appending one more word to a joined word list appends a space and
/// the word.
proof fn lemma_join_snoc(ws: Seq<Seq<char>>, w: Seq<char>)
    requires
        ws.len() >= 1,
    ensures
        spec_join_words(ws.push(w)) == spec_join_words(ws) + seq![' '] + w,
    decreases ws.len(),
{
    let p = ws.push(w);
    if ws.len() == 1 {
        assert(p.drop_first() =~= seq![w]);
        assert(spec_join_words(seq![w]) == w);
        assert(spec_join_words(p) =~= ws[0] + seq![' '] + w);
        assert(spec_join_words(ws) == ws[0]);
    } else {
        assert(p.drop_first() =~= ws.drop_first().push(w));
        lemma_join_snoc(ws.drop_first(), w);
        assert(spec_join_words(p) == p[0] + seq![' '] + spec_join_words(p.drop_first()));
        assert(p[0] == ws[0]);
        assert(spec_join_words(p) =~= spec_join_words(ws) + seq![' '] + w);
    }
}

/// Relies on String::push: appends the given character to the end of
/// the string.
#[verifier::external_body]
fn push_char(s: &mut String, c: char)
    ensures
        final(s)@ == old(s)@.push(c),
{
    s.push(c);
}

/// The characters of a string, as a vector.
pub fn chars_of(s: &str) -> (out: Vec<char>)
    ensures
        out@ == s@,
{
    let n = s.unicode_len();
    let mut out: Vec<char> = Vec::new();
    let mut i: usize = 0;
    while i < n
        invariant
            i <= n == s@.len(),
            out@ == s@.take(i as int),
        decreases n - i,
    {
        let c = s.get_char(i);
        out.push(c);
        proof {
            assert(s@.take(i + 1) =~= s@.take(i as int).push(s@[i as int]));
        }
        i = i + 1;
    }
    proof {
        assert(s@.take(n as int) =~= s@);
    }
    out
}

/// A string holding exactly the given characters.
pub fn string_from_chars(v: &Vec<char>) -> (s: String)
    ensures
        s@ == v@,
{
    let mut s = String::new();
    let mut i: usize = 0;
    while i < v.len()
        invariant
            i <= v@.len(),
            s@ == v@.take(i as int),
        decreases v@.len() - i,
    {
        push_char(&mut s, v[i]);
        proof {
            assert(v@.take(i + 1) =~= v@.take(i as int).push(v@[i as int]));
        }
        i = i + 1;
    }
    proof {
        assert(v@.take(v@.len() as int) =~= v@);
    }
    s
}

/// The character sequences held by a vector of character vectors.
pub open spec fn view2(vs: Seq<Vec<char>>) -> Seq<Seq<char>> {
    Seq::new(vs.len(), |i: int| vs[i]@)
}

/// Splits a character sequence into its maximal space-free runs.
pub fn split_runs(v: &Vec<char>) -> (out: Vec<Vec<char>>)
    ensures
        view2(out@) == spec_words(v@),
{
    let n = v.len();
    let mut out: Vec<Vec<char>> = Vec::new();
    let mut i: usize = 0;
    proof {
        assert(v@.skip(0) =~= v@);
        assert(view2(out@) + spec_words(v@) =~= spec_words(v@));
    }
    while i < n
        invariant
            i <= n == v@.len(),
            view2(out@) + spec_words(v@.skip(i as int)) == spec_words(v@),
        decreases n - i,
    {
        if is_space(v[i]) {
            proof {
                assert(v@.skip(i as int)[0] == v@[i as int]);
                assert(v@.skip(i as int).drop_first() =~= v@.skip(i + 1));
            }
            i = i + 1;
        } else {
            let ghost start: int = i as int;
            let mut w: Vec<char> = Vec::new();
            while i < n && !is_space(v[i])
                invariant
                    0 <= start <= i <= n == v@.len(),
                    w@ == v@.subrange(start, i as int),
                    forall|j: int| start <= j < i ==> !is_space_char(v@[j]),
                    !is_space_char(v@[start]),
                decreases n - i,
            {
                w.push(v[i]);
                proof {
                    assert(v@.subrange(start, i + 1) =~= v@.subrange(start, i as int).push(
                        v@[i as int],
                    ));
                }
                i = i + 1;
            }
            proof {
                let tail = v@.skip(i as int);
                assert(v@.skip(start) =~= w@ + tail);
                assert(w@.len() > 0 && forall|j: int|
                    0 <= j < w@.len() ==> !is_space_char(w@[j]));
                assert(tail.len() == 0 || is_space_char(tail[0]));
                lemma_first_word_of_concat(w@, tail);
                assert(spec_first_word(v@.skip(start)) == w@);
                assert(v@.skip(start).skip(w@.len() as int) =~= tail);
                assert(spec_words(v@.skip(start)) == seq![w@] + spec_words(tail));
            }
            let ghost old_out = out@;
            out.push(w);
            proof {
                assert(view2(out@) =~= view2(old_out).push(w@));
                assert(view2(out@) + spec_words(v@.skip(i as int)) =~= view2(old_out) + (seq![w@]
                    + spec_words(v@.skip(i as int))));
            }
        }
    }
    proof {
        assert(spec_words(v@.skip(n as int)) =~= Seq::<Seq<char>>::empty());
        assert(view2(out@) + spec_words(v@.skip(n as int)) =~= view2(out@));
    }
    out
}

/// One character as the tokenizer sees it: token characters fold to
/// lowercase, everything else becomes a space.
pub open spec fn mask_char(c: char) -> char {
    if is_token_char(c) {
        lower_char(c)
    } else {
        ' '
    }
}

/// The whole field as the tokenizer sees it.
pub open spec fn spec_mask(s: Seq<char>) -> Seq<char> {
    Seq::new(s.len(), |i: int| mask_char(s[i]))
}

/// The indexed tokens of a field: maximal alphanumeric runs, folded to
/// lowercase.
pub open spec fn spec_tokens(s: Seq<char>) -> Seq<Seq<char>> {
    spec_words(spec_mask(s))
}

fn mask_chars(v: &Vec<char>) -> (out: Vec<char>)
    ensures
        out@ == spec_mask(v@),
{
    let n = v.len();
    let mut out: Vec<char> = Vec::new();
    let mut i: usize = 0;
    while i < n
        invariant
            i <= n == v@.len(),
            out@ == spec_mask(v@).take(i as int),
        decreases n - i,
    {
        let c = v[i];
        if is_token(c) {
            out.push(lower(c));
        } else {
            out.push(' ');
        }
        proof {
            assert(spec_mask(v@).take(i + 1) =~= spec_mask(v@).take(i as int).push(
                spec_mask(v@)[i as int],
            ));
        }
        i = i + 1;
    }
    proof {
        assert(spec_mask(v@).take(n as int) =~= spec_mask(v@));
    }
    out
}

/// The tokens of a field, computed.
pub fn tokenize(s: &str) -> (out: Vec<Vec<char>>)
    ensures
        view2(out@) == spec_tokens(s@),
{
    let cs = chars_of(s);
    let masked = mask_chars(&cs);
    split_runs(&masked)
}

/// A word folded to lowercase, character by character.
pub open spec fn spec_lower_word(w: Seq<char>) -> Seq<char> {
    Seq::new(w.len(), |i: int| lower_char(w[i]))
}

fn lower_chars(v: &Vec<char>) -> (out: Vec<char>)
    ensures
        out@ == spec_lower_word(v@),
{
    let n = v.len();
    let mut out: Vec<char> = Vec::new();
    let mut i: usize = 0;
    while i < n
        invariant
            i <= n == v@.len(),
            out@ == spec_lower_word(v@).take(i as int),
        decreases n - i,
    {
        out.push(lower(v[i]));
        proof {
            assert(spec_lower_word(v@).take(i + 1) =~= spec_lower_word(v@).take(i as int).push(
                spec_lower_word(v@)[i as int],
            ));
        }
        i = i + 1;
    }
    proof {
        assert(spec_lower_word(v@).take(n as int) =~= spec_lower_word(v@));
    }
    out
}

/// The words the search engine matches against: the whitespace-separated
/// words of the query, folded to lowercase.
pub open spec fn spec_query_words(q: Seq<char>) -> Seq<Seq<char>> {
    Seq::new(spec_words(q).len(), |i: int| spec_lower_word(spec_words(q)[i]))
}

/// The query words, computed.
pub fn split_query(s: &str) -> (out: Vec<Vec<char>>)
    ensures
        view2(out@) == spec_query_words(s@),
{
    let cs = chars_of(s);
    let words = split_runs(&cs);
    let mut out: Vec<Vec<char>> = Vec::new();
    let mut i: usize = 0;
    while i < words.len()
        invariant
            i <= words@.len(),
            view2(words@) == spec_words(s@),
            view2(out@) == spec_query_words(s@).take(i as int),
        decreases words@.len() - i,
    {
        let lw = lower_chars(&words[i]);
        out.push(lw);
        proof {
            assert(words@[i as int]@ == spec_words(s@)[i as int]);
            assert(spec_query_words(s@).take(i + 1) =~= spec_query_words(s@).take(i as int).push(
                spec_query_words(s@)[i as int],
            ));
            assert(view2(out@) =~= spec_query_words(s@).take(i + 1));
        }
        i = i + 1;
    }
    proof {
        assert(spec_query_words(s@).take(spec_query_words(s@).len() as int) =~= spec_query_words(
            s@,
        ));
    }
    out
}

/// Collapses every whitespace run to a single space and trims the ends.
pub fn remove_all_extra_whitespace(s: &str) -> (out: String)
    ensures
        out@ == spec_normalize(s@),
{
    let cs = chars_of(s);
    let words = split_runs(&cs);
    let mut out = String::new();
    let mut i: usize = 0;
    while i < words.len()
        invariant
            i <= words@.len(),
            view2(words@) == spec_words(s@),
            out@ == spec_join_words(spec_words(s@).take(i as int)),
        decreases words@.len() - i,
    {
        if i > 0 {
            push_char(&mut out, ' ');
        }
        let ghost mid = out@;
        let w = &words[i];
        let mut j: usize = 0;
        while j < w.len()
            invariant
                j <= w@.len(),
                out@ == mid + w@.take(j as int),
            decreases w@.len() - j,
        {
            push_char(&mut out, w[j]);
            proof {
                assert(mid + w@.take(j + 1) =~= (mid + w@.take(j as int)).push(w@[j as int]));
            }
            j = j + 1;
        }
        proof {
            let ws = spec_words(s@);
            assert(w@.take(w@.len() as int) =~= w@);
            assert(w@ == ws[i as int]);
            assert(ws.take(i + 1) =~= ws.take(i as int).push(ws[i as int]));
            if i == 0 {
                assert(spec_join_words(seq![ws[0]]) == ws[0]);
                assert(ws.take(1) =~= seq![ws[0]]);
                assert(out@ =~= spec_join_words(ws.take(1)));
            } else {
                lemma_join_snoc(ws.take(i as int), ws[i as int]);
                assert(out@ =~= spec_join_words(ws.take(i as int)) + seq![' '] + ws[i as int]);
            }
        }
        i = i + 1;
    }
    proof {
        assert(spec_words(s@).take(spec_words(s@).len() as int) =~= spec_words(s@));
    }
    out
}

} // verus!
