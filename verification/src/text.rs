//! Character-level text utilities with specifications.
use vstd::prelude::*;
use vstd::string::*;
use vstd::std_specs::iter::IteratorSpec;
use vstd::utf8::*;

verus! {

broadcast use vstd::string::group_string_axioms;

/// Collects the characters of a string slice into a vector.
pub fn str_chars(s: &str) -> (res: Vec<char>)
    ensures
        res@ == s@,
{
    let mut res: Vec<char> = Vec::new();
    for c in it: s.chars()
        invariant
            res@ == it.seq().take(it.index() as int),
    {
        res.push(c);
    }
    assert(res@ =~= s@);
    res
}

/// `String::push` appends one character to the end of the string.
pub assume_specification[ String::push ](s: &mut String, ch: char)
    ensures
        final(s)@ == old(s)@.push(ch),
;

/// Builds a string holding exactly the given characters.
pub fn string_from_chars(v: &[char]) -> (res: String)
    ensures
        res@ == v@,
{
    let mut res = String::new();
    let n = v.len();
    for i in 0..n
        invariant
            n == v@.len(),
            res@ == v@.take(i as int),
    {
        res.push(v[i]);
        assert(v@.take(i + 1) =~= v@.take(i as int).push(v@[i as int]));
    }
    assert(v@.take(n as int) =~= v@);
    res
}

/// Number of bytes of the UTF-8 encoding of a character sequence, which is
/// what `str::len` reports for a string holding these characters.
pub open spec fn utf8_len(s: Seq<char>) -> nat {
    encode_utf8(s).len()
}

/// The UTF-8 encoding of a concatenation is the concatenation of the encodings.
pub proof fn lemma_encode_utf8_concat(a: Seq<char>, b: Seq<char>)
    ensures
        encode_utf8(a + b) == encode_utf8(a) + encode_utf8(b),
    decreases a.len(),
{
    if a.len() == 0 {
        assert(a + b =~= b);
        assert(encode_utf8(a) + encode_utf8(b) =~= encode_utf8(b));
    } else {
        lemma_encode_utf8_concat(a.drop_first(), b);
        assert((a + b).drop_first() =~= a.drop_first() + b);
        assert((a + b)[0] == a[0]);
        assert(encode_utf8(a + b) =~= encode_scalar(a[0] as u32) + (encode_utf8(a.drop_first())
            + encode_utf8(b)));
    }
}

/// Byte length of a sequence extended by one character.
pub proof fn lemma_utf8_len_push(s: Seq<char>, c: char)
    ensures
        utf8_len(s.push(c)) == utf8_len(s) + encode_scalar(c as u32).len(),
{
    lemma_encode_utf8_concat(s, seq![c]);
    assert(s.push(c) =~= s + seq![c]);
    assert(seq![c].drop_first() =~= Seq::<char>::empty());
    assert(encode_utf8(Seq::<char>::empty()) =~= Seq::<u8>::empty());
    assert(encode_utf8(seq![c]) =~= encode_scalar(c as u32));
}

/// Byte length of a concatenation.
pub proof fn lemma_utf8_len_concat(a: Seq<char>, b: Seq<char>)
    ensures
        utf8_len(a + b) == utf8_len(a) + utf8_len(b),
{
    lemma_encode_utf8_concat(a, b);
}

/// Every character takes one to four bytes.
pub proof fn lemma_scalar_width(c: char)
    ensures
        1 <= encode_scalar(c as u32).len() <= 4,
        (c as u32) < 128 ==> encode_scalar(c as u32).len() == 1,
{
    char_is_scalar(c);
}

/// Number of bytes of the UTF-8 encoding of one character.
pub fn char_utf8_len(c: char) -> (r: usize)
    ensures
        r == encode_scalar(c as u32).len(),
        1 <= r <= 4,
{
    proof {
        char_is_scalar(c);
    }
    let u = c as u32;
    if u <= 0x7f {
        1
    } else if u <= 0x7ff {
        2
    } else if u <= 0xffff {
        3
    } else {
        4
    }
}

/// Number of UTF-8 bytes of a character sequence, given that it fits a `usize`.
pub fn utf8_byte_len(s: &[char]) -> (r: usize)
    requires
        utf8_len(s@) <= usize::MAX,
    ensures
        r == utf8_len(s@),
{
    let mut r: usize = 0;
    let n = s.len();
    for i in 0..n
        invariant
            n == s@.len(),
            utf8_len(s@) <= usize::MAX,
            r == utf8_len(s@.take(i as int)),
    {
        proof {
            assert(s@.take(i + 1) =~= s@.take(i as int).push(s@[i as int]));
            lemma_utf8_len_push(s@.take(i as int), s@[i as int]);
            assert(s@ =~= s@.take(i + 1) + s@.skip(i + 1));
            lemma_utf8_len_concat(s@.take(i + 1), s@.skip(i + 1));
        }
        let w = char_utf8_len(s[i]);
        r = r + w;
    }
    assert(s@.take(n as int) =~= s@);
    r
}

/// The character views of a sequence of character vectors.
pub open spec fn views(v: Seq<Vec<char>>) -> Seq<Seq<char>> {
    v.map_values(|x: Vec<char>| x@)
}

/// A line with one trailing carriage return removed, if it has one.
pub open spec fn strip_cr(l: Seq<char>) -> Seq<char> {
    if l.len() > 0 && l.last() == '\r' {
        l.drop_last()
    } else {
        l
    }
}

/// Reading `s` left to right: the lines closed by a `'\n'` so far (each without
/// its `"\n"` or `"\r\n"` terminator) and the text of the line still open.
pub open spec fn line_scan(s: Seq<char>) -> (Seq<Seq<char>>, Seq<char>)
    decreases s.len(),
{
    if s.len() == 0 {
        (Seq::empty(), Seq::empty())
    } else {
        let (done, open) = line_scan(s.drop_last());
        if s.last() == '\n' {
            (done.push(strip_cr(open)), Seq::empty())
        } else {
            (done, open.push(s.last()))
        }
    }
}

/// The lines of a text as `str::lines` yields them: split at `'\n'`, a `"\r\n"`
/// terminator removed whole, and no empty line after a final terminator.
pub open spec fn lines_of(s: Seq<char>) -> Seq<Seq<char>> {
    let (done, open) = line_scan(s);
    if open.len() > 0 {
        done.push(open)
    } else {
        done
    }
}

/// The lines joined with `'\n'` between them.
pub open spec fn join_lines(ls: Seq<Seq<char>>) -> Seq<char>
    decreases ls.len(),
{
    if ls.len() == 0 {
        Seq::empty()
    } else if ls.len() == 1 {
        ls[0]
    } else {
        join_lines(ls.drop_last()) + seq!['\n'] + ls.last()
    }
}

/// Sum over the lines of their byte length plus one (for a separator).
pub open spec fn lines_bytes(ls: Seq<Seq<char>>) -> nat
    decreases ls.len(),
{
    if ls.len() == 0 {
        0
    } else {
        lines_bytes(ls.drop_last()) + utf8_len(ls.last()) + 1
    }
}

/// `lines_bytes` is additive over concatenation.
pub proof fn lemma_lines_bytes_concat(a: Seq<Seq<char>>, b: Seq<Seq<char>>)
    ensures
        lines_bytes(a + b) == lines_bytes(a) + lines_bytes(b),
    decreases b.len(),
{
    if b.len() == 0 {
        assert(a + b =~= a);
    } else {
        lemma_lines_bytes_concat(a, b.drop_last());
        assert((a + b).drop_last() =~= a + b.drop_last());
    }
}

/// A contiguous run of lines takes no more bytes than all of them.
pub proof fn lemma_lines_bytes_subrange(ls: Seq<Seq<char>>, i: int, j: int)
    requires
        0 <= i <= j <= ls.len(),
    ensures
        lines_bytes(ls.subrange(i, j)) <= lines_bytes(ls),
{
    assert(ls =~= ls.subrange(0, i) + ls.subrange(i, j) + ls.subrange(j, ls.len() as int));
    lemma_lines_bytes_concat(ls.subrange(0, i), ls.subrange(i, j));
    lemma_lines_bytes_concat(ls.subrange(0, i) + ls.subrange(i, j), ls.subrange(j, ls.len() as int));
}

/// The joined text of a non-empty run of lines is one byte shorter than `lines_bytes`.
pub proof fn lemma_join_lines_len(ls: Seq<Seq<char>>)
    requires
        ls.len() > 0,
    ensures
        utf8_len(join_lines(ls)) + 1 == lines_bytes(ls),
    decreases ls.len(),
{
    if ls.len() > 1 {
        lemma_join_lines_len(ls.drop_last());
        lemma_utf8_len_concat(join_lines(ls.drop_last()), seq!['\n']);
        lemma_utf8_len_concat(join_lines(ls.drop_last()) + seq!['\n'], ls.last());
        lemma_utf8_len_push(Seq::<char>::empty(), '\n');
        lemma_scalar_width('\n');
        assert(Seq::<char>::empty().push('\n') =~= seq!['\n']);
        assert(encode_utf8(Seq::<char>::empty()) =~= Seq::<u8>::empty());
    } else {
        assert(ls.drop_last() =~= Seq::<Seq<char>>::empty());
        assert(ls.last() == ls[0]);
        assert(lines_bytes(ls.drop_last()) == 0);
    }
}

/// Scanning lines never produces more bytes than the text holds.
proof fn lemma_line_scan_bytes(s: Seq<char>)
    ensures
        lines_bytes(line_scan(s).0) + utf8_len(line_scan(s).1) <= utf8_len(s),
    decreases s.len(),
{
    if s.len() > 0 {
        let p = s.drop_last();
        lemma_line_scan_bytes(p);
        let (done, open) = line_scan(p);
        assert(s =~= p.push(s.last()));
        lemma_utf8_len_push(p, s.last());
        lemma_scalar_width(s.last());
        if s.last() == '\n' {
            if open.len() > 0 && open.last() == '\r' {
                assert(open =~= open.drop_last().push('\r'));
                lemma_utf8_len_push(open.drop_last(), '\r');
            }
            assert(done.push(strip_cr(open)).drop_last() =~= done);
            assert(encode_utf8(Seq::<char>::empty()) =~= Seq::<u8>::empty());
        } else {
            lemma_utf8_len_push(open, s.last());
        }
    }
}

/// The lines of a text take at most one byte more than the text.
pub proof fn lemma_lines_of_bytes(s: Seq<char>)
    ensures
        lines_bytes(lines_of(s)) <= utf8_len(s) + 1,
{
    lemma_line_scan_bytes(s);
    let (done, open) = line_scan(s);
    if open.len() > 0 {
        assert(done.push(open).drop_last() =~= done);
    }
}

/// Splits a text into its lines (see `lines_of`).
pub fn split_lines(s: &[char]) -> (r: Vec<Vec<char>>)
    ensures
        views(r@) == lines_of(s@),
{
    let mut done: Vec<Vec<char>> = Vec::new();
    let mut open: Vec<char> = Vec::new();
    let n = s.len();
    for i in 0..n
        invariant
            n == s@.len(),
            (views(done@), open@) == line_scan(s@.take(i as int)),
    {
        let ghost pre = s@.take(i as int);
        assert(s@.take(i + 1).drop_last() =~= pre);
        assert(s@.take(i + 1).last() == s@[i as int]);
        let c = s[i];
        if c == '\n' {
            let k = open.len();
            if k > 0 && open[k - 1] == '\r' {
                open.pop();
            }
            let line = open;
            open = Vec::new();
            done.push(line);
            assert(views(done@) =~= line_scan(pre).0.push(strip_cr(line_scan(pre).1)));
            assert(open@ =~= Seq::<char>::empty());
        } else {
            open.push(c);
        }
    }
    assert(s@.take(n as int) =~= s@);
    if open.len() > 0 {
        done.push(open);
        assert(views(done@) =~= lines_of(s@));
    }
    done
}

/// The lines `from..=to` of `ls` joined with `'\n'`.
pub fn join_line_range(ls: &Vec<Vec<char>>, from: usize, to: usize) -> (r: Vec<char>)
    requires
        from <= to < ls@.len(),
        lines_bytes(views(ls@)) <= usize::MAX,
    ensures
        r@ == join_lines(views(ls@).subrange(from as int, to + 1)),
{
    let ghost vs = views(ls@);
    let total = ls.len();
    let mut r: Vec<char> = Vec::new();
    let mut k = from;
    while k <= to
        invariant
            from <= k <= to + 1,
            to < ls@.len(),
            total == ls@.len(),
            vs == views(ls@),
            k == from ==> r@ == Seq::<char>::empty(),
            k > from ==> r@ == join_lines(vs.subrange(from as int, k as int)),
        decreases to + 1 - k,
    {
        let ghost before = r@;
        if k > from {
            r.push('\n');
        }
        let line = &ls[k];
        let m = line.len();
        let mut j: usize = 0;
        while j < m
            invariant
                j <= m,
                m == line@.len(),
                r@ == (if k > from { before + seq!['\n'] } else { before }) + line@.take(j as int),
            decreases m - j,
        {
            r.push(line[j]);
            j = j + 1;
            assert(line@.take(j as int) =~= line@.take(j - 1).push(line@[j - 1]));
        }
        assert(line@.take(m as int) =~= line@);
        let ghost sub = vs.subrange(from as int, k + 1);
        assert(sub.drop_last() =~= vs.subrange(from as int, k as int));
        assert(sub.last() == line@);
        if k == from {
            assert(r@ =~= join_lines(sub));
        } else {
            assert(r@ =~= join_lines(sub));
        }
        k = k + 1;
    }
    r
}

/// Characters with the Unicode `White_Space` property, as `char::is_whitespace`
/// documents it.
pub open spec fn is_white_space(c: char) -> bool {
    let u = c as u32;
    ||| 0x09 <= u <= 0x0d
    ||| u == 0x20
    ||| u == 0x85
    ||| u == 0xa0
    ||| u == 0x1680
    ||| 0x2000 <= u <= 0x200a
    ||| u == 0x2028
    ||| u == 0x2029
    ||| u == 0x202f
    ||| u == 0x205f
    ||| u == 0x3000
}

/// Whether a character has the Unicode `White_Space` property.
pub fn is_whitespace_char(c: char) -> (r: bool)
    ensures
        r == is_white_space(c),
{
    let u = c as u32;
    (0x09 <= u && u <= 0x0d) || u == 0x20 || u == 0x85 || u == 0xa0 || u == 0x1680 || (0x2000
        <= u && u <= 0x200a) || u == 0x2028 || u == 0x2029 || u == 0x202f || u == 0x205f || u
        == 0x3000
}

/// Number of leading white-space characters.
pub open spec fn leading_ws(s: Seq<char>) -> nat
    decreases s.len(),
{
    if s.len() > 0 && is_white_space(s[0]) {
        1 + leading_ws(s.drop_first())
    } else {
        0
    }
}

/// The text with leading white space removed, as `str::trim_start` does.
pub open spec fn trim_start(s: Seq<char>) -> Seq<char> {
    s.skip(leading_ws(s) as int)
}

proof fn lemma_leading_ws_skip(s: Seq<char>, i: int)
    requires
        0 <= i <= s.len(),
        forall|j: int| 0 <= j < i ==> is_white_space(#[trigger] s[j]),
    ensures
        leading_ws(s) == i + leading_ws(s.skip(i)),
    decreases i,
{
    if i > 0 {
        lemma_leading_ws_skip(s.drop_first(), i - 1);
        assert(s.drop_first().skip(i - 1) =~= s.skip(i));
        assert(is_white_space(s[0]));
    } else {
        assert(s.skip(0) =~= s);
    }
}

/// Index of the first character that is not white space.
pub fn trim_start_index(s: &[char]) -> (r: usize)
    ensures
        r == leading_ws(s@),
        r <= s@.len(),
{
    let n = s.len();
    let mut i: usize = 0;
    while i < n && is_whitespace_char(s[i])
        invariant
            i <= n,
            n == s@.len(),
            forall|j: int| 0 <= j < i ==> is_white_space(#[trigger] s@[j]),
        decreases n - i,
    {
        i = i + 1;
    }
    proof {
        lemma_leading_ws_skip(s@, i as int);
        if i < n {
            assert(s@.skip(i as int)[0] == s@[i as int]);
        }
    }
    i
}

/// `p` is a prefix of `s`.
pub open spec fn has_prefix(s: Seq<char>, p: Seq<char>) -> bool {
    p.len() <= s.len() && s.take(p.len() as int) == p
}

/// Whether `s[from..]` starts with `p`.
pub fn starts_with_at(s: &[char], from: usize, p: &[char]) -> (r: bool)
    requires
        from <= s@.len(),
    ensures
        r == has_prefix(s@.skip(from as int), p@),
{
    let n = s.len();
    let m = p.len();
    if m > n - from {
        return false;
    }
    let mut j: usize = 0;
    while j < m
        invariant
            j <= m,
            m == p@.len(),
            n == s@.len(),
            from + m <= n,
            forall|k: int| 0 <= k < j ==> s@[from + k] == p@[k],
        decreases m - j,
    {
        if s[from + j] != p[j] {
            assert(s@.skip(from as int).take(m as int)[j as int] != p@[j as int]);
            return false;
        }
        j = j + 1;
    }
    assert(s@.skip(from as int).take(m as int) =~= p@);
    true
}

/// `char::is_alphanumeric`: the character has the Unicode `Alphabetic` or
/// `Numeric` property.  For ASCII characters these are exactly the digits and
/// the Latin letters.
pub uninterp spec fn spec_is_alphanumeric(c: char) -> bool;

/// `char::is_alphanumeric`: the result is `spec_is_alphanumeric(c)`; for an
/// ASCII character it is true exactly for `0-9`, `A-Z` and `a-z`.
pub assume_specification[ char::is_alphanumeric ](c: char) -> (r: bool)
    ensures
        r == spec_is_alphanumeric(c),
        (c as u32) < 128 ==> (r <==> (('0' <= c && c <= '9') || ('A' <= c && c <= 'Z') || ('a'
            <= c && c <= 'z'))),
;

/// A character that may appear in a symbol name.
pub open spec fn is_ident_char(c: char) -> bool {
    spec_is_alphanumeric(c) || c == '_'
}

/// The longest prefix of `s` made of identifier characters.
pub open spec fn ident_prefix(s: Seq<char>) -> Seq<char>
    decreases s.len(),
{
    if s.len() > 0 && is_ident_char(s[0]) {
        seq![s[0]] + ident_prefix(s.drop_first())
    } else {
        Seq::empty()
    }
}

proof fn lemma_ident_prefix_skip(s: Seq<char>, i: int)
    requires
        0 <= i <= s.len(),
        forall|j: int| 0 <= j < i ==> is_ident_char(#[trigger] s[j]),
    ensures
        ident_prefix(s) == s.take(i) + ident_prefix(s.skip(i)),
    decreases i,
{
    if i > 0 {
        lemma_ident_prefix_skip(s.drop_first(), i - 1);
        assert(s.drop_first().skip(i - 1) =~= s.skip(i));
        assert(is_ident_char(s[0]));
        assert(s.take(i) =~= seq![s[0]] + s.drop_first().take(i - 1));
    } else {
        assert(s.skip(0) =~= s);
        assert(s.take(0) =~= Seq::<char>::empty());
    }
}

/// The identifier characters at the start of `s[from..]`.
pub fn ident_prefix_at(s: &[char], from: usize) -> (r: Vec<char>)
    requires
        from <= s@.len(),
    ensures
        r@ == ident_prefix(s@.skip(from as int)),
{
    let ghost t = s@.skip(from as int);
    let n = s.len();
    let mut r: Vec<char> = Vec::new();
    let mut i = from;
    while i < n && (s[i].is_alphanumeric() || s[i] == '_')
        invariant
            from <= i <= n,
            n == s@.len(),
            t == s@.skip(from as int),
            r@ == t.take(i - from),
            forall|j: int| 0 <= j < i - from ==> is_ident_char(#[trigger] t[j]),
        decreases n - i,
    {
        r.push(s[i]);
        i = i + 1;
        assert(t.take(i - from) =~= t.take(i - 1 - from).push(t[i - 1 - from]));
    }
    proof {
        lemma_ident_prefix_skip(t, i - from);
        assert(t.skip(i - from) =~= s@.skip(i as int));
        if i < n {
            assert(s@.skip(i as int)[0] == s@[i as int]);
        }
        assert(t.take(i - from) + Seq::<char>::empty() =~= t.take(i - from));
    }
    r
}

/// Whether two string slices hold the same characters.
pub fn str_equal(a: &str, b: &str) -> (r: bool)
    ensures
        r == (a@ == b@),
{
    let x = str_chars(a);
    let y = str_chars(b);
    if x.len() != y.len() {
        return false;
    }
    let n = x.len();
    for i in 0..n
        invariant
            n == x@.len(),
            n == y@.len(),
            x@ == a@,
            y@ == b@,
            forall|k: int| 0 <= k < i ==> x@[k] == y@[k],
    {
        if x[i] != y[i] {
            assert(x@[i as int] != y@[i as int]);
            return false;
        }
    }
    assert(x@ =~= y@);
    true
}

/// The decimal digit character for `d < 10`.
pub open spec fn digit_char(d: nat) -> char {
    (d + 48) as char
}

/// Decimal representation of a natural number, without leading zeros.
pub open spec fn decimal(n: nat) -> Seq<char>
    decreases n,
{
    if n < 10 {
        seq![digit_char(n)]
    } else {
        decimal(n / 10).push(digit_char(n % 10))
    }
}

/// Appends the decimal representation of `n`.
pub fn push_decimal(out: &mut Vec<char>, n: u64)
    ensures
        final(out)@ == old(out)@ + decimal(n as nat),
    decreases n,
{
    if n >= 10 {
        push_decimal(out, n / 10);
    }
    let d = (n % 10) as u8;
    let c = (d + 48) as char;
    out.push(c);
    proof {
        assert(c == digit_char((n % 10) as nat));
        assert(out@ =~= old(out)@ + decimal(n as nat));
    }
}

/// The character views of a sequence of strings.
pub open spec fn string_views(v: Seq<String>) -> Seq<Seq<char>> {
    v.map_values(|x: String| x@)
}

/// Copies a vector of strings.
pub fn clone_strings(v: &Vec<String>) -> (r: Vec<String>)
    ensures
        string_views(r@) == string_views(v@),
{
    let mut r: Vec<String> = Vec::new();
    let n = v.len();
    for i in 0..n
        invariant
            n == v@.len(),
            string_views(r@) == string_views(v@.take(i as int)),
    {
        let ghost pre = r@;
        let c = v[i].clone();
        assert(c@ == v@[i as int]@);
        r.push(c);
        assert(r@ == pre.push(c));
        assert(string_views(r@) =~= string_views(pre).push(c@));
        assert(string_views(v@.take(i + 1)) =~= string_views(v@.take(i as int)).push(v@[i as int]@));
        assert(string_views(r@) =~= string_views(v@.take(i + 1)));
    }
    assert(v@.take(n as int) =~= v@);
    r
}

/// Copies an optional string.
pub fn clone_opt_string(o: &Option<String>) -> (r: Option<String>)
    ensures
        r == *o,
{
    match o {
        Some(s) => Some(s.clone()),
        None => None,
    }
}

/// Whether a vector of strings holds a string equal to `s`.
pub fn contains_string(v: &Vec<String>, s: &str) -> (r: bool)
    ensures
        r == string_views(v@).contains(s@),
{
    let n = v.len();
    for i in 0..n
        invariant
            n == v@.len(),
            forall|j: int| 0 <= j < i ==> v@[j]@ != s@,
    {
        if str_equal(v[i].as_str(), s) {
            assert(string_views(v@)[i as int] == s@);
            return true;
        }
    }
    assert forall|j: int| 0 <= j < string_views(v@).len() implies string_views(v@)[j] != s@ by {
        assert(string_views(v@)[j] == v@[j]@);
    }
    false
}

/// Decimal representation of an integer, with a leading `'-'` when negative.
pub open spec fn signed_decimal(i: int) -> Seq<char> {
    if i < 0 {
        seq!['-'] + decimal((-i) as nat)
    } else {
        decimal(i as nat)
    }
}

/// Appends the decimal representation of `i` (as `Display` for `i64` writes it).
pub fn push_signed_decimal(out: &mut Vec<char>, i: i64)
    ensures
        final(out)@ == old(out)@ + signed_decimal(i as int),
{
    if i < 0 {
        out.push('-');
        let m = (-(i + 1)) as u64 + 1;
        push_decimal(out, m);
        assert(out@ =~= old(out)@ + signed_decimal(i as int));
    } else {
        push_decimal(out, i as u64);
    }
}

/// Appends the characters of a string slice.
pub fn push_str(out: &mut Vec<char>, s: &str)
    ensures
        final(out)@ == old(out)@ + s@,
{
    let cs = str_chars(s);
    let n = cs.len();
    for i in 0..n
        invariant
            n == cs@.len(),
            cs@ == s@,
            out@ == old(out)@ + cs@.take(i as int),
    {
        out.push(cs[i]);
        assert(cs@.take(i + 1) =~= cs@.take(i as int).push(cs@[i as int]));
    }
    assert(cs@.take(n as int) =~= cs@);
}

/// The characters of `s` from index `from` on.
pub fn chars_from(s: &[char], from: usize) -> (r: Vec<char>)
    requires
        from <= s@.len(),
    ensures
        r@ == s@.skip(from as int),
{
    let mut r: Vec<char> = Vec::new();
    let n = s.len();
    let mut i = from;
    while i < n
        invariant
            from <= i <= n,
            n == s@.len(),
            r@ == s@.subrange(from as int, i as int),
        decreases n - i,
    {
        r.push(s[i]);
        i = i + 1;
        assert(r@ =~= s@.subrange(from as int, i as int));
    }
    assert(r@ =~= s@.skip(from as int));
    r
}

} // verus!
