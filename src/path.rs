use vstd::prelude::*;
use vstd::string::*;

verus! {

/// One segment of a dotted path.
#[derive(Debug, Clone, PartialEq)]
pub enum DotToken {
    /// A property name of an object.
    Property(String),
    /// Every child of an object or an array.
    Wildcard,
    /// An array index.
    Index(usize),
}

/// A dotted path into a value tree: `.` separates the segments, `*` is a wildcard and a
/// segment that reads as a non-negative integer is an array index.
#[derive(Debug, Clone, PartialEq)]
pub struct DotPath(pub String);

/// The segments of `s` between the occurrences of `sep`; there is always at least one.
pub open spec fn split_on(s: Seq<char>, sep: char) -> Seq<Seq<char>>
    decreases s.len(),
{
    if s.len() == 0 {
        seq![Seq::empty()]
    } else {
        let r = split_on(s.drop_last(), sep);
        if s.last() == sep {
            r.push(Seq::empty())
        } else {
            r.update(r.len() - 1, r.last().push(s.last()))
        }
    }
}

pub open spec fn is_digit(c: char) -> bool {
    '0' <= c && c <= '9'
}

/// The value of a run of decimal digits.
pub open spec fn digits_value(d: Seq<char>) -> nat
    decreases d.len(),
{
    if d.len() == 0 {
        0
    } else {
        digits_value(d.drop_last()) * 10 + (d.last() as nat - '0' as nat) as nat
    }
}

/// The digits of an index segment: an optional leading `+` is not part of them.
pub open spec fn index_digits(s: Seq<char>) -> Seq<char> {
    if s.len() > 0 && s[0] == '+' {
        s.skip(1)
    } else {
        s
    }
}

/// A segment reads as an index when it is decimal digits, after an optional `+`, whose
/// value fits in `usize`.
pub open spec fn is_index(s: Seq<char>) -> bool {
    let d = index_digits(s);
    &&& d.len() > 0
    &&& forall|i: int| 0 <= i < d.len() ==> is_digit(#[trigger] d[i])
    &&& digits_value(d) <= usize::MAX
}

pub open spec fn is_wildcard(s: Seq<char>) -> bool {
    s == seq!['*']
}

/// The mathematical model of a [`DotToken`].
pub ghost enum Tok {
    Property(Seq<char>),
    Wildcard,
    Index(usize),
}

impl View for DotToken {
    type V = Tok;

    open spec fn view(&self) -> Tok {
        match self {
            DotToken::Property(p) => Tok::Property(p@),
            DotToken::Wildcard => Tok::Wildcard,
            DotToken::Index(n) => Tok::Index(*n),
        }
    }
}

/// The token that one segment reads as.
pub open spec fn segment_token(seg: Seq<char>) -> Tok {
    if is_wildcard(seg) {
        Tok::Wildcard
    } else if is_index(seg) {
        Tok::Index(digits_value(index_digits(seg)) as usize)
    } else {
        Tok::Property(seg)
    }
}

/// The tokens of a path text.
pub open spec fn path_tokens(s: Seq<char>) -> Seq<Tok> {
    split_on(s, '.').map_values(|seg: Seq<char>| segment_token(seg))
}

pub open spec fn tokens_view(toks: Seq<DotToken>) -> Seq<Tok> {
    toks.map_values(|t: DotToken| t@)
}

proof fn lemma_digits_monotone(d: Seq<char>, k: int)
    requires
        0 <= k <= d.len(),
        forall|i: int| 0 <= i < d.len() ==> is_digit(#[trigger] d[i]),
    ensures
        digits_value(d.take(k)) <= digits_value(d),
    decreases d.len() - k,
{
    if k < d.len() {
        lemma_digits_monotone(d, k + 1);
        assert(d.take(k + 1).drop_last() =~= d.take(k));
        assert(digits_value(d.take(k + 1)) == digits_value(d.take(k)) * 10 + (d[k] as nat
            - '0' as nat) as nat);
        assert(digits_value(d.take(k)) <= digits_value(d.take(k)) * 10) by (nonlinear_arith);
    } else {
        assert(d.take(k) =~= d);
    }
}

/// Reads `s` as an index, the way an unsigned integer is parsed from decimal text.
pub fn parse_index(s: &str) -> (r: Option<usize>)
    ensures
        r == (if is_index(s@) {
            Some(digits_value(index_digits(s@)) as usize)
        } else {
            None::<usize>
        }),
{
    let n = s.unicode_len();
    let mut start: usize = 0;
    if n > 0 && s.get_char(0) == '+' {
        start = 1;
    }
    let ghost d = index_digits(s@);
    assert(d =~= s@.skip(start as int));
    if start >= n {
        return None;
    }
    let mut value: usize = 0;
    let mut i: usize = start;
    while i < n
        invariant
            start <= i <= n,
            n == s@.len(),
            d =~= s@.skip(start as int),
            d == index_digits(s@),
            forall|j: int| 0 <= j < i - start ==> is_digit(#[trigger] d[j]),
            value as nat == digits_value(d.take(i - start)),
        decreases n - i,
    {
        let c = s.get_char(i);
        if !('0' <= c && c <= '9') {
            proof {
                let j = i - start;
                assert(d[j] == c);
                assert(!is_digit(d[j]));

            }
            return None;
        }
        let digit = (c as u32 - '0' as u32) as usize;
        assert(d.take(i - start + 1).drop_last() =~= d.take(i - start));
        if value > (usize::MAX - digit) / 10 {
            proof {
                assert(forall|j: int| 0 <= j < i + 1 - start ==> is_digit(#[trigger] d[j]));
                let rest = d.take(i + 1 - start);
                assert(rest.drop_last() =~= d.take(i - start));
                assert(rest.last() == c);
                assert(digits_value(rest) == value * 10 + digit);
                assert forall|j: int| 0 <= j < rest.len() implies is_digit(#[trigger] rest[j]) by {
                    assert(rest[j] == d[j]);
                }
                assert(digits_value(rest) > usize::MAX) by (nonlinear_arith)
                    requires
                        value > (usize::MAX - digit) / 10,
                        digits_value(rest) == value * 10 + digit,
                ;
                if forall|j: int| 0 <= j < d.len() ==> is_digit(#[trigger] d[j]) {
                    lemma_digits_monotone(d, i + 1 - start);
                }

            }
            return None;
        }
        value = value * 10 + digit;
        i += 1;
    }
    assert(d.take(n - start) =~= d);
    Some(value)
}

} // verus!

verus! {

/// The token that one segment reads as.
fn token_for(seg: &str) -> (t: DotToken)
    ensures
        t@ == segment_token(seg@),
{
    if seg.unicode_len() == 1 && seg.get_char(0) == '*' {
        assert(seg@ =~= seq!['*']);
        DotToken::Wildcard
    } else {
        match parse_index(seg) {
            Some(n) => DotToken::Index(n),
            None => DotToken::Property(String::from_str(seg)),
        }
    }
}

impl DotPath {
    /// Splits the path on `.` and reads each segment as a token: `*` is a wildcard, a
    /// segment that parses as an unsigned integer is an index, anything else a property
    /// name (the empty path gives one empty property name).
    pub fn tokenize(&self) -> (r: Vec<DotToken>)
        ensures
            tokens_view(r@) == path_tokens(self.0@),
    {
        let s = self.0.as_str();
        let n = s.unicode_len();
        let mut toks: Vec<DotToken> = Vec::new();
        let mut start: usize = 0;
        let mut i: usize = 0;
        assert(s@.take(0) =~= Seq::<char>::empty());
        while i < n
            invariant
                start <= i <= n,
                n == s@.len(),
                s@ == self.0@,
                split_on(s@.take(i as int), '.').len() == toks@.len() + 1,
                forall|j: int|
                    0 <= j < toks@.len() ==> (#[trigger] toks@[j])@ == segment_token(
                        split_on(s@.take(i as int), '.')[j],
                    ),
                split_on(s@.take(i as int), '.').last() == s@.subrange(start as int, i as int),
            decreases n - i,
        {
            let c = s.get_char(i);
            assert(s@.take(i + 1).drop_last() =~= s@.take(i as int));
            assert(s@.take(i + 1).last() == c);
            if c == '.' {
                let seg = s.substring_char(start, i);
                let t = token_for(seg);
                toks.push(t);
                start = i + 1;
                assert(s@.subrange(start as int, i + 1) =~= Seq::<char>::empty());
            } else {
                assert(s@.subrange(start as int, i + 1) =~= s@.subrange(start as int, i as int).push(c));
            }
            i += 1;
        }
        let seg = s.substring_char(start, n);
        let t = token_for(seg);
        toks.push(t);
        assert(s@.take(n as int) =~= s@);
        assert(tokens_view(toks@) =~= path_tokens(self.0@));
        toks
    }
}

} // verus!

verus! {

pub proof fn lemma_split_nonempty(s: Seq<char>, sep: char)
    ensures
        split_on(s, sep).len() >= 1,
    decreases s.len(),
{
    if s.len() > 0 {
        lemma_split_nonempty(s.drop_last(), sep);
    }
}

} // verus!

verus! {

/// A walk over the tokens of a path.
#[derive(Debug, Clone, PartialEq)]
pub struct DotPathIterator {
    pub tokens: Vec<DotToken>,
    pub index: usize,
}

impl DotToken {
    /// A copy of the token.
    pub fn copy(&self) -> (r: DotToken)
        ensures
            r@ == self@,
    {
        match self {
            DotToken::Property(p) => DotToken::Property(p.clone()),
            DotToken::Wildcard => DotToken::Wildcard,
            DotToken::Index(n) => DotToken::Index(*n),
        }
    }

    /// The segment text of the token: the property name, `*`, or the index in decimal.
    pub fn to_text(&self) -> (r: String)
        ensures
            r@ == token_text(self@),
    {
        match self {
            DotToken::Property(p) => p.clone(),
            DotToken::Wildcard => {
                proof {
                    reveal_strlit("*");
                }
                String::from_str("*")
            },
            DotToken::Index(n) => decimal_string(*n),
        }
    }
}

pub open spec fn digit_of(d: nat) -> char {
    if d == 0 { '0' }
    else if d == 1 { '1' }
    else if d == 2 { '2' }
    else if d == 3 { '3' }
    else if d == 4 { '4' }
    else if d == 5 { '5' }
    else if d == 6 { '6' }
    else if d == 7 { '7' }
    else if d == 8 { '8' }
    else { '9' }
}

/// The decimal text of `n`, without leading zeros.
pub open spec fn decimal_of(n: nat) -> Seq<char>
    decreases n,
{
    if n < 10 {
        seq![digit_of(n)]
    } else {
        decimal_of(n / 10).push(digit_of(n % 10))
    }
}

pub open spec fn token_text(t: Tok) -> Seq<char> {
    match t {
        Tok::Property(p) => p,
        Tok::Wildcard => seq!['*'],
        Tok::Index(n) => decimal_of(n as nat),
    }
}

/// The texts of the tokens joined by `.`.
pub open spec fn join_tokens(ts: Seq<Tok>) -> Seq<char>
    decreases ts.len(),
{
    if ts.len() == 0 {
        Seq::empty()
    } else if ts.len() == 1 {
        token_text(ts[0])
    } else {
        join_tokens(ts.drop_last()) + seq!['.'] + token_text(ts.last())
    }
}

fn digit_str(d: usize) -> (r: &'static str)
    requires
        d < 10,
    ensures
        r@ == seq![digit_of(d as nat)],
{
    proof {
        reveal_strlit("0");
        reveal_strlit("1");
        reveal_strlit("2");
        reveal_strlit("3");
        reveal_strlit("4");
        reveal_strlit("5");
        reveal_strlit("6");
        reveal_strlit("7");
        reveal_strlit("8");
        reveal_strlit("9");
    }
    if d == 0 { "0" }
    else if d == 1 { "1" }
    else if d == 2 { "2" }
    else if d == 3 { "3" }
    else if d == 4 { "4" }
    else if d == 5 { "5" }
    else if d == 6 { "6" }
    else if d == 7 { "7" }
    else if d == 8 { "8" }
    else { "9" }
}

/// The decimal text of `n`.
pub fn decimal_string(n: usize) -> (r: String)
    ensures
        r@ == decimal_of(n as nat),
    decreases n,
{
    if n < 10 {
        String::from_str(digit_str(n))
    } else {
        let mut s = decimal_string(n / 10);
        s.append(digit_str(n % 10));
        s
    }
}

impl DotPathIterator {
    /// Starts a walk over the tokens of a path.
    pub fn new(dot_path: &DotPath) -> (r: Self)
        ensures
            tokens_view(r.tokens@) == path_tokens(dot_path.0@),
            r.index == 0,
    {
        DotPathIterator { tokens: dot_path.tokenize(), index: 0 }
    }

    /// The next token, or `None` after the last one.
    pub fn next(&mut self) -> (r: Option<DotToken>)
        ensures
            final(self).tokens == old(self).tokens,
            old(self).index < old(self).tokens@.len() ==> r is Some && r->Some_0@
                == old(self).tokens@[old(self).index as int]@ && final(self).index == old(self).index
                + 1,
            old(self).index >= old(self).tokens@.len() ==> r is None && final(self).index
                == old(self).index,
    {
        if self.index < self.tokens.len() {
            let token = self.tokens[self.index].copy();
            self.index += 1;
            Some(token)
        } else {
            None
        }
    }

    /// The tokens written back as path text, joined by `.`.
    pub fn to_text(&self) -> (r: String)
        ensures
            r@ == join_tokens(tokens_view(self.tokens@)),
    {
        let ghost tv = tokens_view(self.tokens@);
        let mut out = String::new();
        let mut i: usize = 0;
        assert(tv.take(0) =~= Seq::<Tok>::empty());
        while i < self.tokens.len()
            invariant
                i <= self.tokens@.len(),
                tv == tokens_view(self.tokens@),
                out@ == join_tokens(tv.take(i as int)),
            decreases self.tokens.len() - i,
        {
            assert(tv.take(i + 1).drop_last() =~= tv.take(i as int));
            assert(tv.take(i + 1).last() == self.tokens@[i as int]@);
            if i > 0 {
                proof {
                    reveal_strlit(".");
                }
                out.append(".");
            } else {
                assert(tv.take(1)[0] == self.tokens@[0]@);
            }
            let t = self.tokens[i].to_text();
            out.append(t.as_str());
            i += 1;
        }
        assert(tv.take(i as int) =~= tv);
        out
    }
}

} // verus!

verus! {

proof fn lemma_split_plain(a: Seq<char>, sep: char)
    requires
        forall|i: int| 0 <= i < a.len() ==> a[i] != sep,
    ensures
        split_on(a, sep) == seq![a],
    decreases a.len(),
{
    if a.len() > 0 {
        lemma_split_plain(a.drop_last(), sep);
        assert(a.drop_last().push(a.last()) =~= a);
        assert(seq![a.drop_last()].update(0, a.drop_last().push(a.last())) =~= seq![a]);
    } else {
        assert(a =~= Seq::<char>::empty());
    }
}

proof fn lemma_split_join(s: Seq<char>, t: Seq<char>, sep: char)
    ensures
        split_on(s.push(sep) + t, sep) == split_on(s, sep) + split_on(t, sep),
    decreases t.len(),
{
    lemma_split_nonempty(t, sep);
    if t.len() == 0 {
        assert(s.push(sep) + t =~= s.push(sep));
        assert(s.push(sep).drop_last() =~= s);
        assert(split_on(s, sep).push(Seq::empty()) =~= split_on(s, sep) + seq![Seq::<char>::empty()]);
    } else {
        lemma_split_join(s, t.drop_last(), sep);
        lemma_split_nonempty(t.drop_last(), sep);
        lemma_split_nonempty(s, sep);
        assert((s.push(sep) + t).drop_last() =~= s.push(sep) + t.drop_last());
        assert((s.push(sep) + t).last() == t.last());
        let a = split_on(s, sep);
        let b = split_on(t.drop_last(), sep);
        if t.last() == sep {
            assert((a + b).push(Seq::empty()) =~= a + b.push(Seq::empty()));
        } else {
            assert((a + b).update((a + b).len() - 1, (a + b).last().push(t.last())) =~= a + b.update(
                b.len() - 1,
                b.last().push(t.last()),
            ));
        }
    }
}

/// The path `items.*.qty` reads as the property `items`, a wildcard and the property `qty`.
pub proof fn lemma_items_qty_tokens()
    ensures
        path_tokens("items.*.qty"@) == seq![
            Tok::Property("items"@),
            Tok::Wildcard,
            Tok::Property("qty"@),
        ],
{
    reveal_strlit("items.*.qty");
    reveal_strlit("items");
    reveal_strlit("qty");
    let a = "items"@;
    let b = seq!['*'];
    let c = "qty"@;
    assert("items.*.qty"@ =~= a.push('.') + (b.push('.') + c));
    lemma_split_plain(a, '.');
    lemma_split_plain(b, '.');
    lemma_split_plain(c, '.');
    lemma_split_join(b, c, '.');
    lemma_split_join(a, b.push('.') + c, '.');
    let segs = split_on("items.*.qty"@, '.');
    assert(segs =~= seq![a, b, c]);
    assert(!is_digit(a[0]) && index_digits(a) == a);
    assert(!is_digit(c[0]) && index_digits(c) == c);
    assert(!is_index(a));
    assert(!is_index(c));
    assert(path_tokens("items.*.qty"@) =~= seq![Tok::Property(a), Tok::Wildcard, Tok::Property(c)]);
}

} // verus!
