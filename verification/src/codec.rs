//! Text utilities for the line-oriented protocol: character classes,
//! decimal numbers, whitespace tokenization, line splitting and substring
//! search, each with a specification-level model and the lemmas that
//! connect formatting with parsing.

use vstd::prelude::*;

verus! {

/// ASCII whitespace, as the protocol understands it.
pub open spec fn is_space(c: char) -> bool {
    c == ' ' || c == '\t' || c == '\r' || c == '\n'
}

/// The numeric value of a decimal digit character, or -1 for any other
/// character.
pub open spec fn digit_val(c: char) -> int {
    if c == '0' { 0 }
    else if c == '1' { 1 }
    else if c == '2' { 2 }
    else if c == '3' { 3 }
    else if c == '4' { 4 }
    else if c == '5' { 5 }
    else if c == '6' { 6 }
    else if c == '7' { 7 }
    else if c == '8' { 8 }
    else if c == '9' { 9 }
    else { -1 }
}

pub open spec fn is_digit(c: char) -> bool {
    digit_val(c) >= 0
}

/// The decimal digit character for a value below ten.
pub open spec fn digit_char(d: int) -> char {
    if d == 0 { '0' }
    else if d == 1 { '1' }
    else if d == 2 { '2' }
    else if d == 3 { '3' }
    else if d == 4 { '4' }
    else if d == 5 { '5' }
    else if d == 6 { '6' }
    else if d == 7 { '7' }
    else if d == 8 { '8' }
    else { '9' }
}

/// The canonical decimal rendering of a nonnegative integer, most
/// significant digit first, without leading zeros.
pub open spec fn dec_chars(n: int) -> Seq<char>
    decreases n,
{
    if n < 10 {
        seq![digit_char(n)]
    } else {
        dec_chars(n / 10) + seq![digit_char(n % 10)]
    }
}

/// All characters are decimal digits, and there is at least one.
pub open spec fn all_digits(s: Seq<char>) -> bool {
    s.len() >= 1 && forall|i: int| 0 <= i < s.len() ==> is_digit(#[trigger] s[i])
}

/// The value of a digit string, most significant digit first.
pub open spec fn digits_val(s: Seq<char>) -> int
    decreases s.len(),
{
    if s.len() == 0 {
        0
    } else {
        digits_val(s.drop_last()) * 10 + digit_val(s.last())
    }
}

/// A numeric token: an optional leading plus sign, then decimal digits.
/// `None` unless the token is such a string with a value that fits `u32`.
pub open spec fn parse_u32_tok(s: Seq<char>) -> Option<int> {
    let ds = if s.len() >= 1 && s[0] == '+' { s.drop_first() } else { s };
    if all_digits(ds) && 0 <= digits_val(ds) <= u32::MAX {
        Some(digits_val(ds))
    } else {
        None
    }
}

pub proof fn lemma_digits_val_nonneg(s: Seq<char>)
    requires
        forall|i: int| 0 <= i < s.len() ==> is_digit(#[trigger] s[i]),
    ensures
        digits_val(s) >= 0,
    decreases s.len(),
{
    if s.len() > 0 {
        lemma_digits_val_nonneg(s.drop_last());
    }
}

/// Extending a digit string on the right never lowers its value.
pub proof fn lemma_digits_val_prefix_le(s: Seq<char>, i: int)
    requires
        forall|j: int| 0 <= j < s.len() ==> is_digit(#[trigger] s[j]),
        0 <= i <= s.len(),
    ensures
        digits_val(s.take(i)) <= digits_val(s),
    decreases s.len() - i,
{
    if i < s.len() {
        lemma_digits_val_prefix_le(s, i + 1);
        let t = s.take(i + 1);
        assert(t.drop_last() =~= s.take(i));
        lemma_digits_val_nonneg(s.take(i));
        assert(digits_val(t) == digits_val(s.take(i)) * 10 + digit_val(t.last()));
        assert(digits_val(s.take(i)) * 10 >= digits_val(s.take(i))) by (nonlinear_arith)
            requires digits_val(s.take(i)) >= 0,
        ;
    } else {
        assert(s.take(i) =~= s);
    }
}

/// The canonical rendering of a value is made of digits and reads back as
/// that value.
pub proof fn lemma_dec_chars_val(n: int)
    requires
        n >= 0,
    ensures
        all_digits(dec_chars(n)),
        digits_val(dec_chars(n)) == n,
        dec_chars(n).len() >= 1,
    decreases n,
{
    if n < 10 {
        let s = dec_chars(n);
        assert(s.drop_last() =~= Seq::<char>::empty());
        assert(s.last() == digit_char(n));
        assert(digit_val(digit_char(n)) == n);
        assert(digits_val(Seq::<char>::empty()) == 0);
        assert(digits_val(s) == digits_val(s.drop_last()) * 10 + digit_val(s.last()));
    } else {
        lemma_dec_chars_val(n / 10);
        let s = dec_chars(n);
        assert(s.drop_last() =~= dec_chars(n / 10));
        assert forall|i: int| 0 <= i < s.len() implies is_digit(#[trigger] s[i]) by {
            if i < s.len() - 1 {
                assert(s[i] == dec_chars(n / 10)[i]);
            } else {
                assert(s[i] == digit_char(n % 10));
            }
        }
        assert(s.last() == digit_char(n % 10));
        assert(digit_val(digit_char(n % 10)) == n % 10);
        assert(digits_val(s) == (n / 10) * 10 + n % 10);
        assert((n / 10) * 10 + n % 10 == n) by (nonlinear_arith)
            requires n >= 0,
        ;
    }
}

/// The whitespace-separated tokens of a character sequence, in order.
pub open spec fn tokens(s: Seq<char>) -> Seq<Seq<char>>
    decreases s.len(),
{
    if s.len() == 0 {
        Seq::empty()
    } else if is_space(s[0]) {
        tokens(s.drop_first())
    } else if s.len() == 1 || is_space(s[1]) {
        seq![seq![s[0]]] + tokens(s.drop_first())
    } else {
        let t = tokens(s.drop_first());
        seq![seq![s[0]] + t[0]] + t.drop_first()
    }
}

/// A sequence that starts with a non-space character has a first token,
/// and that token starts with the same character.
pub proof fn lemma_tokens_head(s: Seq<char>)
    requires
        s.len() >= 1,
        !is_space(s[0]),
    ensures
        tokens(s).len() >= 1,
        tokens(s)[0].len() >= 1,
        tokens(s)[0][0] == s[0],
    decreases s.len(),
{
    if s.len() > 1 && !is_space(s[1]) {
        lemma_tokens_head(s.drop_first());
    }
}

/// A nonempty sequence without whitespace is a single token.
pub proof fn lemma_tokens_word(s: Seq<char>)
    requires
        s.len() >= 1,
        forall|i: int| 0 <= i < s.len() ==> !is_space(#[trigger] s[i]),
    ensures
        tokens(s) =~= seq![s],
    decreases s.len(),
{
    if s.len() == 1 {
        assert(seq![s[0]] =~= s);
        assert(s.drop_first().len() == 0);
        assert(tokens(s.drop_first()) =~= Seq::<Seq<char>>::empty());
        assert(tokens(s) =~= seq![seq![s[0]]] + tokens(s.drop_first()));
    } else {
        lemma_tokens_word(s.drop_first());
        let t = tokens(s.drop_first());
        assert(t[0] == s.drop_first());
        assert(seq![s[0]] + s.drop_first() =~= s);
        assert(t.drop_first() =~= Seq::<Seq<char>>::empty());
        assert(tokens(s) =~= seq![seq![s[0]] + t[0]] + t.drop_first());
    }
}

/// Tokenization cuts at a whitespace character: the tokens of
/// `a + [c] + b` for whitespace `c` are the tokens of `a` followed by the
/// tokens of `b`.
pub proof fn lemma_tokens_split(a: Seq<char>, c: char, b: Seq<char>)
    requires
        is_space(c),
    ensures
        tokens(a + seq![c] + b) =~= tokens(a) + tokens(b),
    decreases a.len(),
{
    let s = a + seq![c] + b;
    if a.len() == 0 {
        assert(s[0] == c);
        assert(s.drop_first() =~= b);
    } else {
        lemma_tokens_split(a.drop_first(), c, b);
        assert(s[0] == a[0]);
        assert(s.drop_first() =~= a.drop_first() + seq![c] + b);
        if is_space(a[0]) {
            assert(tokens(s) == tokens(s.drop_first()));
        } else if a.len() == 1 {
            assert(s[1] == c);
            assert(tokens(s) == seq![seq![s[0]]] + tokens(s.drop_first()));
            assert(a.drop_first() + seq![c] + b =~= seq![c] + b);
            assert((seq![c] + b).drop_first() =~= b);
            assert(tokens(a) =~= seq![seq![a[0]]]);
        } else if is_space(a[1]) {
            assert(s[1] == a[1]);
            assert(tokens(s) == seq![seq![s[0]]] + tokens(s.drop_first()));
            assert(tokens(a) == seq![seq![a[0]]] + tokens(a.drop_first()));
        } else {
            assert(s[1] == a[1]);
            lemma_tokens_head(a.drop_first());
            let t = tokens(s.drop_first());
            let ta = tokens(a.drop_first());
            assert(t =~= ta + tokens(b));
            assert(t[0] == ta[0]);
            assert(t.drop_first() =~= ta.drop_first() + tokens(b));
            assert(tokens(s) == seq![seq![s[0]] + t[0]] + t.drop_first());
            assert(tokens(a) == seq![seq![a[0]] + ta[0]] + ta.drop_first());
        }
    }
}

/// Every token is nonempty and free of whitespace.
pub proof fn lemma_tokens_wf(s: Seq<char>)
    ensures
        forall|k: int| 0 <= k < tokens(s).len() ==> (#[trigger] tokens(s)[k]).len() >= 1,
        forall|k: int, i: int|
            0 <= k < tokens(s).len() && 0 <= i < tokens(s)[k].len()
                ==> !is_space(#[trigger] tokens(s)[k][i]),
    decreases s.len(),
{
    if s.len() == 0 {
    } else if is_space(s[0]) {
        lemma_tokens_wf(s.drop_first());
    } else if s.len() == 1 || is_space(s[1]) {
        lemma_tokens_wf(s.drop_first());
        assert forall|k: int| 0 <= k < tokens(s).len() implies
            (#[trigger] tokens(s)[k]).len() >= 1 by {
            if k >= 1 {
                assert(tokens(s)[k] == tokens(s.drop_first())[k - 1]);
            }
        }
        assert forall|k: int, i: int|
            0 <= k < tokens(s).len() && 0 <= i < tokens(s)[k].len() implies
            !is_space(#[trigger] tokens(s)[k][i]) by {
            if k >= 1 {
                assert(tokens(s)[k] == tokens(s.drop_first())[k - 1]);
            }
        }
    } else {
        lemma_tokens_wf(s.drop_first());
        lemma_tokens_head(s.drop_first());
        let t = tokens(s.drop_first());
        assert forall|k: int| 0 <= k < tokens(s).len() implies
            (#[trigger] tokens(s)[k]).len() >= 1 by {
            if k >= 1 {
                assert(tokens(s)[k] == t[k]);
            }
        }
        assert forall|k: int, i: int|
            0 <= k < tokens(s).len() && 0 <= i < tokens(s)[k].len() implies
            !is_space(#[trigger] tokens(s)[k][i]) by {
            if k == 0 {
                if i == 0 {
                    assert(tokens(s)[0][0] == s[0]);
                } else {
                    assert(tokens(s)[0][i] == t[0][i - 1]);
                }
            } else {
                assert(tokens(s)[k] == t[k]);
            }
        }
    }
}

/// The pieces of a sequence between occurrences of a separator character.
/// There is always at least one piece; an empty sequence has one empty
/// piece.
pub open spec fn split_char(s: Seq<char>, sep: char) -> Seq<Seq<char>>
    decreases s.len(),
{
    if s.len() == 0 {
        seq![Seq::<char>::empty()]
    } else if s[0] == sep {
        seq![Seq::<char>::empty()] + split_char(s.drop_first(), sep)
    } else {
        let r = split_char(s.drop_first(), sep);
        seq![seq![s[0]] + r[0]] + r.drop_first()
    }
}

pub proof fn lemma_split_char_len(s: Seq<char>, sep: char)
    ensures
        split_char(s, sep).len() >= 1,
    decreases s.len(),
{
    if s.len() > 0 {
        lemma_split_char_len(s.drop_first(), sep);
    }
}

/// A sequence without the separator is a single piece.
pub proof fn lemma_split_char_whole(s: Seq<char>, sep: char)
    requires
        forall|i: int| 0 <= i < s.len() ==> s[i] != sep,
    ensures
        split_char(s, sep) =~= seq![s],
    decreases s.len(),
{
    if s.len() > 0 {
        lemma_split_char_whole(s.drop_first(), sep);
        let r = split_char(s.drop_first(), sep);
        assert(r[0] == s.drop_first());
        assert(seq![s[0]] + s.drop_first() =~= s);
        assert(r.drop_first() =~= Seq::<Seq<char>>::empty());
        assert(split_char(s, sep) =~= seq![seq![s[0]] + r[0]] + r.drop_first());
    } else {
        assert(s =~= Seq::<char>::empty());
    }
}

/// Splitting cuts at the first separator: for `a` free of the separator,
/// the pieces of `a + [sep] + b` are `a` followed by the pieces of `b`.
pub proof fn lemma_split_char_step(a: Seq<char>, sep: char, b: Seq<char>)
    requires
        forall|i: int| 0 <= i < a.len() ==> a[i] != sep,
    ensures
        split_char(a + seq![sep] + b, sep) =~= seq![a] + split_char(b, sep),
    decreases a.len(),
{
    let s = a + seq![sep] + b;
    if a.len() == 0 {
        assert(s[0] == sep);
        assert(s.drop_first() =~= b);
        assert(a =~= Seq::<char>::empty());
        assert(split_char(s, sep) =~= seq![Seq::<char>::empty()] + split_char(b, sep));
    } else {
        lemma_split_char_step(a.drop_first(), sep, b);
        assert(s[0] == a[0]);
        assert(s.drop_first() =~= a.drop_first() + seq![sep] + b);
        lemma_split_char_len(b, sep);
        let r = split_char(s.drop_first(), sep);
        assert(r =~= seq![a.drop_first()] + split_char(b, sep));
        assert(r[0] == a.drop_first());
        assert(seq![s[0]] + r[0] =~= a);
        assert(r.drop_first() =~= split_char(b, sep));
    }
}

/// Splitting distributes over a separator anywhere: the pieces of
/// `a + [sep] + b` are the pieces of `a` followed by the pieces of `b`.
pub proof fn lemma_split_char_append(a: Seq<char>, sep: char, b: Seq<char>)
    ensures
        split_char(a + seq![sep] + b, sep) =~= split_char(a, sep) + split_char(b, sep),
    decreases a.len(),
{
    let s = a + seq![sep] + b;
    if a.len() == 0 {
        assert(s[0] == sep);
        assert(s.drop_first() =~= b);
        assert(a =~= Seq::<char>::empty());
        assert(split_char(s, sep) =~= seq![Seq::<char>::empty()] + split_char(b, sep));
    } else {
        lemma_split_char_append(a.drop_first(), sep, b);
        assert(s[0] == a[0]);
        assert(s.drop_first() =~= a.drop_first() + seq![sep] + b);
        if a[0] == sep {
            assert(split_char(s, sep) =~= seq![Seq::<char>::empty()] + split_char(
                s.drop_first(),
                sep,
            ));
            assert(split_char(a, sep) =~= seq![Seq::<char>::empty()] + split_char(
                a.drop_first(),
                sep,
            ));
        } else {
            lemma_split_char_len(a.drop_first(), sep);
            let r = split_char(s.drop_first(), sep);
            let ra = split_char(a.drop_first(), sep);
            assert(r =~= ra + split_char(b, sep));
            assert(r[0] == ra[0]);
            assert(r.drop_first() =~= ra.drop_first() + split_char(b, sep));
            assert(split_char(s, sep) =~= seq![seq![s[0]] + r[0]] + r.drop_first());
            assert(split_char(a, sep) =~= seq![seq![a[0]] + ra[0]] + ra.drop_first());
        }
    }
}

/// The pattern occurs in `s` at offset `i`.
pub open spec fn match_at(s: Seq<char>, pat: Seq<char>, i: int) -> bool {
    0 <= i && i + pat.len() <= s.len() && s.subrange(i, i + pat.len()) == pat
}

/// The offset of the first occurrence of a pattern, if any.
pub open spec fn spec_find(s: Seq<char>, pat: Seq<char>) -> Option<int>
    decreases s.len(),
{
    if pat.len() == 0 {
        Some(0)
    } else if s.len() < pat.len() {
        None
    } else if s.subrange(0, pat.len() as int) == pat {
        Some(0)
    } else {
        match spec_find(s.drop_first(), pat) {
            Some(i) => Some(i + 1),
            None => None,
        }
    }
}

/// `spec_find` returns the first match: a match with no earlier match, or
/// nothing when the pattern does not occur.
pub proof fn lemma_spec_find(s: Seq<char>, pat: Seq<char>)
    ensures
        match spec_find(s, pat) {
            Some(i) => match_at(s, pat, i)
                && forall|j: int| 0 <= j < i ==> !match_at(s, pat, j),
            None => forall|j: int| !match_at(s, pat, j),
        },
    decreases s.len(),
{
    if pat.len() == 0 {
        assert(s.subrange(0, 0) =~= pat);
    } else if s.len() < pat.len() {
    } else if s.subrange(0, pat.len() as int) == pat {
    } else {
        lemma_spec_find(s.drop_first(), pat);
        assert forall|j: int| 1 <= j ==> (match_at(s, pat, j) == match_at(
            s.drop_first(),
            pat,
            j - 1,
        )) by {
            if 1 <= j && j + pat.len() <= s.len() {
                assert(s.drop_first().subrange(j - 1, j - 1 + pat.len()) =~= s.subrange(
                    j,
                    j + pat.len(),
                ));
            }
        }
    }
}

/// What is left after removing leading whitespace.
pub open spec fn trim_start(s: Seq<char>) -> Seq<char>
    decreases s.len(),
{
    if s.len() > 0 && is_space(s[0]) {
        trim_start(s.drop_first())
    } else {
        s
    }
}

/// What is left after removing trailing whitespace.
pub open spec fn trim_end(s: Seq<char>) -> Seq<char>
    decreases s.len(),
{
    if s.len() > 0 && is_space(s.last()) {
        trim_end(s.drop_last())
    } else {
        s
    }
}

/// What is left after removing whitespace at both ends.
pub open spec fn spec_trim(s: Seq<char>) -> Seq<char> {
    trim_end(trim_start(s))
}

pub fn is_space_exec(c: char) -> (r: bool)
    ensures
        r == is_space(c),
{
    c == ' ' || c == '\t' || c == '\r' || c == '\n'
}

/// The numeric value of a decimal digit character.
pub fn digit_of(c: char) -> (r: Option<u32>)
    ensures
        match r {
            Some(d) => digit_val(c) == d && d < 10,
            None => digit_val(c) == -1,
        },
{
    match c {
        '0' => Some(0),
        '1' => Some(1),
        '2' => Some(2),
        '3' => Some(3),
        '4' => Some(4),
        '5' => Some(5),
        '6' => Some(6),
        '7' => Some(7),
        '8' => Some(8),
        '9' => Some(9),
        _ => None,
    }
}

/// The characters of a string slice, in order.
pub fn chars_of(s: &str) -> (r: Vec<char>)
    ensures
        r@ == s@,
{
    let n = s.unicode_len();
    let mut r: Vec<char> = Vec::new();
    let mut i: usize = 0;
    while i < n
        invariant
            i <= n,
            n == s@.len(),
            r@ =~= s@.take(i as int),
        decreases n - i,
    {
        r.push(s.get_char(i));
        assert(r@ =~= s@.take(i + 1));
        i = i + 1;
    }
    assert(r@ =~= s@);
    r
}

/// Whether a character vector holds exactly the characters of a string.
pub fn char_vec_eq_str(v: &Vec<char>, s: &str) -> (r: bool)
    ensures
        r == (v@ == s@),
{
    let n = s.unicode_len();
    if v.len() != n {
        return false;
    }
    let mut i: usize = 0;
    while i < n
        invariant
            i <= n,
            n == s@.len(),
            v@.len() == n,
            forall|j: int| 0 <= j < i ==> v@[j] == s@[j],
        decreases n - i,
    {
        if v[i] != s.get_char(i) {
            return false;
        }
        i = i + 1;
    }
    proof {
        assert(v@ =~= s@);
    }
    true
}

/// A copy of the characters between two offsets.
pub fn subvec(v: &Vec<char>, a: usize, b: usize) -> (r: Vec<char>)
    requires
        a <= b <= v@.len(),
    ensures
        r@ == v@.subrange(a as int, b as int),
{
    let mut r: Vec<char> = Vec::new();
    let mut i: usize = a;
    while i < b
        invariant
            a <= i <= b <= v@.len(),
            r@ =~= v@.subrange(a as int, i as int),
        decreases b - i,
    {
        r.push(v[i]);
        assert(r@ =~= v@.subrange(a as int, i + 1));
        i = i + 1;
    }
    r
}

/// The offset of the first occurrence of a character at or after `from`.
pub fn find_char_from(v: &Vec<char>, from: usize, c: char) -> (r: Option<usize>)
    requires
        from <= v@.len(),
    ensures
        match r {
            Some(j) => from <= j < v@.len() && v@[j as int] == c
                && forall|k: int| from <= k < j ==> v@[k] != c,
            None => forall|k: int| from <= k < v@.len() ==> v@[k] != c,
        },
{
    let mut i: usize = from;
    while i < v.len()
        invariant
            from <= i <= v@.len(),
            forall|k: int| from <= k < i ==> v@[k] != c,
        decreases v@.len() - i,
    {
        if v[i] == c {
            return Some(i);
        }
        i = i + 1;
    }
    None
}

/// The pieces of the vector between occurrences of a separator, as
/// `split_char` describes them.
pub fn split_char_exec(v: &Vec<char>, sep: char) -> (r: Vec<Vec<char>>)
    ensures
        r@.len() == split_char(v@, sep).len(),
        forall|i: int| 0 <= i < r@.len() ==> (#[trigger] r@[i])@ == split_char(v@, sep)[i],
{
    let mut out: Vec<Vec<char>> = Vec::new();
    let mut start: usize = 0;
    proof {
        assert(v@.skip(0) =~= v@);
    }
    loop
        invariant
            start <= v@.len(),
            split_char(v@, sep).len() == out@.len() + split_char(v@.skip(start as int), sep).len(),
            forall|i: int| 0 <= i < out@.len()
                ==> (#[trigger] out@[i])@ == split_char(v@, sep)[i],
            forall|i: int| 0 <= i < split_char(v@.skip(start as int), sep).len()
                ==> #[trigger] split_char(v@.skip(start as int), sep)[i]
                    == split_char(v@, sep)[out@.len() + i],
        decreases v@.len() - start + 1,
    {
        let n = v.len();
        match find_char_from(v, start, sep) {
            Some(j) => {
                proof {
                    assert(j < n);
                }
                let piece = subvec(v, start, j);
                proof {
                    assert(v@.skip(start as int) =~= piece@ + seq![sep] + v@.skip(j + 1));
                    lemma_split_char_step(piece@, sep, v@.skip(j + 1));
                    assert(split_char(v@.skip(start as int), sep)[0] == piece@);
                }
                let ghost prev = out@;
                out.push(piece);
                proof {
                    assert(out@ =~= prev.push(piece));
                    assert(out@[prev.len() as int]@ == split_char(v@, sep)[prev.len() as int]);
                    assert forall|k: int| 0 <= k < split_char(v@.skip(j + 1), sep).len()
                        implies #[trigger] split_char(v@.skip(j + 1), sep)[k]
                            == split_char(v@, sep)[out@.len() + k] by {
                        assert(split_char(v@.skip(start as int), sep)[k + 1]
                            == split_char(v@, sep)[prev.len() + k + 1]);
                    }
                }
                start = j + 1;
            },
            None => {
                let piece = subvec(v, start, n);
                proof {
                    assert(v@.skip(start as int) =~= piece@);
                    lemma_split_char_whole(piece@, sep);
                    assert(split_char(v@.skip(start as int), sep)[0] == piece@);
                }
                let ghost prev = out@;
                out.push(piece);
                proof {
                    assert(out@ =~= prev.push(piece));
                    assert(out@[prev.len() as int]@ == split_char(v@, sep)[prev.len() as int]);
                }
                return out;
            },
        }
    }
}

/// The whitespace-separated tokens of the vector, as `tokens` describes
/// them.
pub fn tokenize(v: &Vec<char>) -> (r: Vec<Vec<char>>)
    ensures
        r@.len() == tokens(v@).len(),
        forall|i: int| 0 <= i < r@.len() ==> (#[trigger] r@[i])@ == tokens(v@)[i],
{
    let mut out: Vec<Vec<char>> = Vec::new();
    let mut i: usize = 0;
    proof {
        assert(v@.skip(0) =~= v@);
    }
    while i < v.len()
        invariant
            i <= v@.len(),
            tokens(v@).len() == out@.len() + tokens(v@.skip(i as int)).len(),
            forall|k: int| 0 <= k < out@.len() ==> (#[trigger] out@[k])@ == tokens(v@)[k],
            forall|k: int| 0 <= k < tokens(v@.skip(i as int)).len()
                ==> #[trigger] tokens(v@.skip(i as int))[k] == tokens(v@)[out@.len() + k],
        decreases v@.len() - i,
    {
        if is_space_exec(v[i]) {
            proof {
                assert(v@.skip(i as int).drop_first() =~= v@.skip(i + 1));
            }
            i = i + 1;
        } else {
            let mut j: usize = i + 1;
            while j < v.len() && !is_space_exec(v[j])
                invariant
                    i < j <= v@.len(),
                    forall|k: int| i <= k < j ==> !is_space(#[trigger] v@[k]),
                decreases v@.len() - j,
            {
                j = j + 1;
            }
            let word = subvec(v, i, j);
            let ghost next = if j < v@.len() { j + 1 } else { j as int };
            proof {
                if j == v@.len() {
                    assert(v@.skip(i as int) =~= word@);
                    lemma_tokens_word(word@);
                    assert(v@.skip(next) =~= Seq::<char>::empty());
                    assert(tokens(v@.skip(i as int)) =~= seq![word@] + tokens(v@.skip(next)));
                } else {
                    assert(v@.skip(i as int) =~= word@ + seq![v@[j as int]] + v@.skip(j + 1));
                    lemma_tokens_split(word@, v@[j as int], v@.skip(j + 1));
                    lemma_tokens_word(word@);
                    assert(tokens(v@.skip(i as int)) =~= seq![word@] + tokens(v@.skip(next)));
                }
                assert(tokens(v@.skip(i as int))[0] == word@);
            }
            let ghost prev = out@;
            out.push(word);
            proof {
                assert(out@ =~= prev.push(word));
                assert(out@[prev.len() as int]@ == tokens(v@)[prev.len() as int]);
                assert forall|k: int| 0 <= k < tokens(v@.skip(next)).len()
                    implies #[trigger] tokens(v@.skip(next))[k]
                        == tokens(v@)[out@.len() + k] by {
                    assert(tokens(v@.skip(i as int))[k + 1] == tokens(v@)[prev.len() + k + 1]);
                }
            }
            if j < v.len() {
                i = j + 1;
            } else {
                i = j;
            }
        }
    }
    proof {
        assert(v@.skip(v@.len() as int) =~= Seq::<char>::empty());
    }
    out
}

/// Reads a numeric token; mirrors `parse_u32_tok`.
pub fn parse_u32_vec(v: &Vec<char>) -> (r: Option<u32>)
    ensures
        match parse_u32_tok(v@) {
            Some(n) => r == Some(n as u32),
            None => r is None,
        },
{
    let ghost ds: Seq<char> = if v@.len() >= 1 && v@[0] == '+' { v@.drop_first() } else { v@ };
    let start: usize = if v.len() >= 1 && v[0] == '+' { 1 } else { 0 };
    proof {
        assert(ds =~= v@.skip(start as int));
    }
    if v.len() == start {
        return None;
    }
    let mut acc: u64 = 0;
    let mut i: usize = start;
    while i < v.len()
        invariant
            start <= i <= v@.len(),
            start <= 1,
            ds == v@.skip(start as int),
            acc <= u32::MAX,
            acc == digits_val(ds.take(i - start)),
            forall|k: int| 0 <= k < i - start ==> is_digit(#[trigger] ds[k]),
        decreases v@.len() - i,
    {
        let d = match digit_of(v[i]) {
            Some(d) => d,
            None => {
                proof {
                    assert(ds[i - start] == v@[i as int]);
                    assert(!is_digit(ds[i - start]));
                }
                return None;
            },
        };
        proof {
            assert(ds.take(i + 1 - start).drop_last() =~= ds.take(i - start));
            assert(ds.take(i + 1 - start).last() == v@[i as int]);
        }
        acc = acc * 10 + d as u64;
        if acc > u32::MAX as u64 {
            proof {
                if all_digits(ds) {
                    lemma_digits_val_prefix_le(ds, i + 1 - start);
                }
            }
            return None;
        }
        i = i + 1;
    }
    proof {
        assert(ds.take(v@.len() - start) =~= ds);
    }
    Some(acc as u32)
}

/// The offset of the first occurrence of a pattern, as `spec_find`
/// describes it.
pub fn find_sub(v: &Vec<char>, pat: &Vec<char>) -> (r: Option<usize>)
    ensures
        match r {
            Some(i) => spec_find(v@, pat@) == Some(i as int) && i + pat@.len() <= v@.len()
                && v@.subrange(i as int, i + pat@.len()) == pat@,
            None => spec_find(v@, pat@) is None,
        },
{
    proof {
        lemma_spec_find(v@, pat@);
    }
    if pat.len() > v.len() {
        return None;
    }
    let mut i: usize = 0;
    while i <= v.len() - pat.len()
        invariant
            pat@.len() <= v@.len(),
            i <= v@.len() - pat@.len() + 1,
            forall|j: int| 0 <= j < i ==> !match_at(v@, pat@, j),
        decreases v@.len() - pat@.len() + 1 - i,
    {
        let mut k: usize = 0;
        let mut same = true;
        proof {
            assert(v@.subrange(i as int, i as int) =~= pat@.subrange(0, 0));
        }
        while k < pat.len()
            invariant
                i + pat@.len() <= v@.len(),
                k <= pat@.len(),
                same == (v@.subrange(i as int, i + k) == pat@.subrange(0, k as int)),
            decreases pat@.len() - k,
        {
            proof {
                assert(v@.subrange(i as int, i + k + 1).drop_last() =~= v@.subrange(
                    i as int,
                    i + k,
                ));
                assert(pat@.subrange(0, k + 1).drop_last() =~= pat@.subrange(0, k as int));
            }
            if v[i + k] != pat[k] {
                same = false;
                proof {
                    assert(v@.subrange(i as int, i + k + 1).last() == v@[i + k]);
                    assert(pat@.subrange(0, k + 1).last() == pat@[k as int]);
                }
            } else {
                proof {
                    if same {
                        assert(v@.subrange(i as int, i + k + 1) =~= v@.subrange(i as int, i + k)
                            .push(v@[i + k]));
                        assert(pat@.subrange(0, k + 1) =~= pat@.subrange(0, k as int).push(
                            pat@[k as int],
                        ));
                    } else {
                        assert(v@.subrange(i as int, i + k) != pat@.subrange(0, k as int));
                        assert(v@.subrange(i as int, i + k + 1).drop_last() =~= v@.subrange(
                            i as int,
                            i + k,
                        ));
                    }
                }
            }
            k = k + 1;
        }
        proof {
            assert(pat@.subrange(0, pat@.len() as int) =~= pat@);
        }
        if same {
            proof {
                assert(match_at(v@, pat@, i as int));
                match spec_find(v@, pat@) {
                    Some(i0) => {
                        assert(!(i0 < i));
                        assert(!(i < i0));
                    },
                    None => {
                        assert(false);
                    },
                }
            }
            return Some(i);
        }
        i = i + 1;
    }
    assert forall|j: int| !match_at(v@, pat@, j) by {
        if 0 <= j && j + pat@.len() <= v@.len() {
            assert(!match_at(v@, pat@, j));
        }
    }
    None
}

/// A copy of the vector with whitespace removed from both ends.
pub fn trim(v: &Vec<char>) -> (r: Vec<char>)
    ensures
        r@ == spec_trim(v@),
{
    let mut a: usize = 0;
    proof {
        assert(v@.skip(0) =~= v@);
    }
    while a < v.len() && is_space_exec(v[a])
        invariant
            a <= v@.len(),
            trim_start(v@) == trim_start(v@.skip(a as int)),
        decreases v@.len() - a,
    {
        proof {
            assert(v@.skip(a as int).drop_first() =~= v@.skip(a + 1));
        }
        a = a + 1;
    }
    proof {
        assert(trim_start(v@) == v@.skip(a as int));
    }
    let mut b: usize = v.len();
    while b > a && is_space_exec(v[b - 1])
        invariant
            a <= b <= v@.len(),
            trim_end(v@.skip(a as int)) == trim_end(v@.subrange(a as int, b as int)),
        decreases b,
    {
        proof {
            assert(v@.subrange(a as int, b as int).last() == v@[b - 1]);
            assert(v@.subrange(a as int, b as int).drop_last() =~= v@.subrange(a as int, b - 1));
        }
        b = b - 1;
    }
    proof {
        if b > a {
            assert(v@.subrange(a as int, b as int).last() == v@[b - 1]);
        }
        assert(trim_end(v@.subrange(a as int, b as int)) == v@.subrange(a as int, b as int));
        assert(v@.skip(a as int) =~= v@.subrange(a as int, v@.len() as int));
    }
    subvec(v, a, b)
}

/// Relies on `String::from_iter` over characters: the collected string
/// holds exactly the characters of the vector, in order.
#[verifier::external_body]
pub fn string_from_chars(v: &Vec<char>) -> (r: String)
    ensures
        r@ == v@,
{
    v.iter().collect()
}

/// Appends one decimal digit character.
pub fn push_digit(out: &mut String, d: u32)
    requires
        d < 10,
    ensures
        final(out)@ == old(out)@ + seq![digit_char(d as int)],
{
    match d {
        0 => {
            out.append("0");
            proof { reveal_strlit("0"); assert("0"@ =~= seq!['0']); }
        },
        1 => {
            out.append("1");
            proof { reveal_strlit("1"); assert("1"@ =~= seq!['1']); }
        },
        2 => {
            out.append("2");
            proof { reveal_strlit("2"); assert("2"@ =~= seq!['2']); }
        },
        3 => {
            out.append("3");
            proof { reveal_strlit("3"); assert("3"@ =~= seq!['3']); }
        },
        4 => {
            out.append("4");
            proof { reveal_strlit("4"); assert("4"@ =~= seq!['4']); }
        },
        5 => {
            out.append("5");
            proof { reveal_strlit("5"); assert("5"@ =~= seq!['5']); }
        },
        6 => {
            out.append("6");
            proof { reveal_strlit("6"); assert("6"@ =~= seq!['6']); }
        },
        7 => {
            out.append("7");
            proof { reveal_strlit("7"); assert("7"@ =~= seq!['7']); }
        },
        8 => {
            out.append("8");
            proof { reveal_strlit("8"); assert("8"@ =~= seq!['8']); }
        },
        _ => {
            out.append("9");
            proof { reveal_strlit("9"); assert("9"@ =~= seq!['9']); }
        },
    }
}

/// Appends the canonical decimal rendering of a value.
pub fn append_u64(out: &mut String, n: u64)
    ensures
        final(out)@ == old(out)@ + dec_chars(n as int),
    decreases n,
{
    if n < 10 {
        push_digit(out, n as u32);
    } else {
        append_u64(out, n / 10);
        push_digit(out, (n % 10) as u32);
        proof {
            assert(old(out)@ + dec_chars(n as int / 10) + seq![digit_char(n as int % 10)]
                =~= old(out)@ + dec_chars(n as int));
        }
    }
}

/// Appends the canonical decimal rendering of a value.
pub fn append_u32(out: &mut String, n: u32)
    ensures
        final(out)@ == old(out)@ + dec_chars(n as int),
{
    append_u64(out, n as u64);
}

/// Whether the text contains the pattern.
pub open spec fn spec_contains(s: Seq<char>, pat: Seq<char>) -> bool {
    spec_find(s, pat) is Some
}

/// Whether the vector contains the pattern, as `spec_contains` describes
/// it.
pub fn contains_sub(v: &Vec<char>, pat: &Vec<char>) -> (r: bool)
    ensures
        r == spec_contains(v@, pat@),
{
    match find_sub(v, pat) {
        Some(_) => true,
        None => false,
    }
}

} // verus!
