//! Character-level string operations, each stated over `Seq<char>`.
use vstd::prelude::*;
use vstd::string::*;
use vstd::utf8::{decode_utf8, encode_scalar, encode_utf8, is_char_boundary};

verus! {

/// Whether a character has the Unicode `White_Space` property, the 25 code
/// points listed for it in `PropList.txt` (what `char::is_whitespace` answers).
pub open spec fn white_space(c: char) -> bool {
    let u = c as u32;
    ||| 0x09 <= u <= 0x0D
    ||| u == 0x20 || u == 0x85 || u == 0xA0 || u == 0x1680
    ||| 0x2000 <= u <= 0x200A
    ||| u == 0x2028 || u == 0x2029 || u == 0x202F || u == 0x205F || u == 0x3000
}

/// The lowercase of an ASCII character: `A`..`Z` become `a`..`z`, every
/// other character stays.
pub open spec fn ascii_lower(c: char) -> char {
    if 0x41 <= (c as u32) <= 0x5A {
        ((c as u32) + 32) as char
    } else {
        c
    }
}

/// Whether every character of `s` is ASCII.
pub open spec fn all_ascii(s: Seq<char>) -> bool {
    vstd::utf8::is_ascii_chars(s)
}

/// The lowercase of `s` (`str::to_lowercase`): letter by letter on ASCII
/// text, the Unicode mapping otherwise.
pub open spec fn lowercase(s: Seq<char>) -> Seq<char> {
    if all_ascii(s) {
        s.map_values(|c: char| ascii_lower(c))
    } else {
        unicode_lowercase(s)
    }
}

/// What `str::to_lowercase` returns for a string (Unicode lowercase mapping).
pub uninterp spec fn unicode_lowercase(s: Seq<char>) -> Seq<char>;

/// The character sequences of a list of strings.
pub open spec fn views(v: Seq<String>) -> Seq<Seq<char>> {
    v.map_values(|s: String| s@)
}

/// `s` without its leading whitespace.
pub open spec fn trim_start(s: Seq<char>) -> Seq<char>
    decreases s.len(),
{
    if s.len() > 0 && white_space(s[0]) {
        trim_start(s.drop_first())
    } else {
        s
    }
}

/// `s` without its trailing whitespace.
pub open spec fn trim_end(s: Seq<char>) -> Seq<char>
    decreases s.len(),
{
    if s.len() > 0 && white_space(s.last()) {
        trim_end(s.drop_last())
    } else {
        s
    }
}

/// `s` without leading and trailing whitespace (`str::trim`).
pub open spec fn trimmed(s: Seq<char>) -> Seq<char> {
    trim_end(trim_start(s))
}

/// `s` with every occurrence of `c` taken out.
pub open spec fn remove_char(s: Seq<char>, c: char) -> Seq<char>
    decreases s.len(),
{
    if s.len() == 0 {
        s
    } else if s.last() == c {
        remove_char(s.drop_last(), c)
    } else {
        remove_char(s.drop_last(), c).push(s.last())
    }
}

/// The decimal digit for `d` (`0 <= d < 10`).
pub open spec fn digit_char(d: int) -> char {
    if d == 0 {
        '0'
    } else if d == 1 {
        '1'
    } else if d == 2 {
        '2'
    } else if d == 3 {
        '3'
    } else if d == 4 {
        '4'
    } else if d == 5 {
        '5'
    } else if d == 6 {
        '6'
    } else if d == 7 {
        '7'
    } else if d == 8 {
        '8'
    } else {
        '9'
    }
}

/// The decimal notation of a natural number, without leading zeros.
pub open spec fn decimal(n: nat) -> Seq<char>
    decreases n,
{
    if n < 10 {
        seq![digit_char(n as int)]
    } else {
        decimal(n / 10).push(digit_char((n % 10) as int))
    }
}

/// The decimal notation of an integer, with a leading `-` when negative
/// (what `to_string` gives for an integer).
pub open spec fn signed_decimal(i: int) -> Seq<char> {
    if i < 0 {
        seq!['-'] + decimal((-i) as nat)
    } else {
        decimal(i as nat)
    }
}

/// Whether `c` has the Unicode `White_Space` property.
pub fn is_whitespace(c: char) -> (r: bool)
    ensures
        r == white_space(c),
{
    let u = c as u32;
    (0x09 <= u && u <= 0x0D) || u == 0x20 || u == 0x85 || u == 0xA0 || u == 0x1680
        || (0x2000 <= u && u <= 0x200A) || u == 0x2028 || u == 0x2029 || u == 0x202F
        || u == 0x205F || u == 0x3000
}

/// Calls `str::to_lowercase`. Lowercase follows Unicode's `Lowercase`
/// mapping, which sends `A`..`Z` to `a`..`z` and maps no other ASCII
/// character, so on ASCII text the result is that letter-by-letter mapping;
/// what it gives for other text is left to the name `unicode_lowercase`.
#[verifier::external_body]
pub(crate) fn to_lowercase(s: &str) -> (r: String)
    ensures
        r@ == lowercase(s@),
        !all_ascii(s@) ==> r@ == unicode_lowercase(s@),
{
    s.to_lowercase()
}

/// Calls `String::push`, which appends one character.
#[verifier::external_body]
pub(crate) fn push_char(s: &mut String, c: char)
    ensures
        final(s)@ == old(s)@.push(c),
{
    s.push(c)
}

/// `s` without leading and trailing whitespace.
pub fn trim(s: &str) -> (r: String)
    ensures
        r@ == trimmed(s@),
{
    let n = s.unicode_len();
    let mut i: usize = 0;
    assert(s@.skip(0) =~= s@);
    while i < n && is_whitespace(s.get_char(i))
        invariant
            i <= n,
            n == s@.len(),
            trim_start(s@) == trim_start(s@.skip(i as int)),
        decreases n - i,
    {
        assert(s@.skip(i as int).drop_first() =~= s@.skip(i + 1));
        i += 1;
    }
    assert(trim_start(s@) == s@.subrange(i as int, n as int)) by {
        assert(s@.skip(i as int) =~= s@.subrange(i as int, n as int));
    }
    let mut j: usize = n;
    while j > i && is_whitespace(s.get_char(j - 1))
        invariant
            i <= j <= n,
            n == s@.len(),
            trim_end(s@.subrange(i as int, n as int)) == trim_end(s@.subrange(i as int, j as int)),
        decreases j,
    {
        assert(s@.subrange(i as int, j as int).drop_last() =~= s@.subrange(i as int, j - 1));
        j -= 1;
    }
    String::from_str(s.substring_char(i, j))
}

/// `s` with every `c` taken out.
pub fn remove_all(s: &str, c: char) -> (r: String)
    ensures
        r@ == remove_char(s@, c),
{
    let n = s.unicode_len();
    let mut r = String::new();
    let mut i: usize = 0;
    while i < n
        invariant
            i <= n,
            n == s@.len(),
            r@ == remove_char(s@.take(i as int), c),
        decreases n - i,
    {
        let d = s.get_char(i);
        assert(s@.take(i + 1).drop_last() =~= s@.take(i as int));
        if d != c {
            push_char(&mut r, d);
        }
        i += 1;
    }
    assert(s@.take(n as int) =~= s@);
    r
}

fn digit(d: u64) -> (c: char)
    requires
        d < 10,
    ensures
        c == digit_char(d as int),
{
    if d == 0 {
        '0'
    } else if d == 1 {
        '1'
    } else if d == 2 {
        '2'
    } else if d == 3 {
        '3'
    } else if d == 4 {
        '4'
    } else if d == 5 {
        '5'
    } else if d == 6 {
        '6'
    } else if d == 7 {
        '7'
    } else if d == 8 {
        '8'
    } else {
        '9'
    }
}

/// Appends the decimal notation of `n` to `s`.
pub fn push_decimal(s: &mut String, n: u64)
    ensures
        final(s)@ == old(s)@ + decimal(n as nat),
    decreases n,
{
    if n >= 10 {
        push_decimal(s, n / 10);
    }
    let c = digit(n % 10);
    push_char(s, c);
    if n >= 10 {
        assert(final(s)@ =~= old(s)@ + decimal(n as nat));
    } else {
        assert(final(s)@ =~= old(s)@ + decimal(n as nat));
    }
}

/// Appends the decimal notation of a signed `n` to `s`.
pub fn push_signed_decimal(s: &mut String, n: i64)
    ensures
        final(s)@ == old(s)@ + signed_decimal(n as int),
{
    if n < 0 {
        push_char(s, '-');
        let m: i128 = -(n as i128);
        push_decimal(s, m as u64);
        assert(final(s)@ =~= old(s)@ + signed_decimal(n as int));
    } else {
        push_decimal(s, n as u64);
    }
}


/// The part of `s` before its first `c`, or all of `s` when it holds no `c`:
/// the first item of `s.split(c)`.
pub open spec fn first_field(s: Seq<char>, c: char) -> Seq<char>
    decreases s.len(),
{
    if s.len() == 0 {
        s
    } else if s[0] == c {
        Seq::empty()
    } else {
        seq![s[0]] + first_field(s.drop_first(), c)
    }
}

/// What follows the first `c` in `s`, or `None` when `s` holds no `c`.
pub open spec fn after_separator(s: Seq<char>, c: char) -> Option<Seq<char>>
    decreases s.len(),
{
    if s.len() == 0 {
        None
    } else if s[0] == c {
        Some(s.drop_first())
    } else {
        after_separator(s.drop_first(), c)
    }
}

/// The second item of `s.split(c)`, if there is one.
pub open spec fn second_field(s: Seq<char>, c: char) -> Option<Seq<char>> {
    match after_separator(s, c) {
        Some(rest) => Some(first_field(rest, c)),
        None => None,
    }
}

/// `s` without the copies of `c` at its start.
pub open spec fn skip_leading(s: Seq<char>, c: char) -> Seq<char>
    decreases s.len(),
{
    if s.len() > 0 && s[0] == c {
        skip_leading(s.drop_first(), c)
    } else {
        s
    }
}

/// Whether `s` begins with the character `c`.
pub open spec fn begins_with(s: Seq<char>, c: char) -> bool {
    s.len() > 0 && s[0] == c
}

/// `s` with each occurrence of the non-empty pattern `p` replaced by `r`,
/// matches taken from left to right without overlap (`str::replace`).
pub open spec fn replace_all(s: Seq<char>, p: Seq<char>, r: Seq<char>) -> Seq<char>
    decreases s.len(),
{
    if p.len() == 0 || s.len() < p.len() {
        s
    } else if s.take(p.len() as int) == p {
        r + replace_all(s.skip(p.len() as int), p, r)
    } else {
        seq![s[0]] + replace_all(s.drop_first(), p, r)
    }
}

/// The items of `s.split(c)`, in order; there is always at least one.
pub open spec fn split_all(s: Seq<char>, c: char) -> Seq<Seq<char>>
    decreases s.len(),
{
    if s.len() == 0 {
        seq![Seq::empty()]
    } else {
        let r = split_all(s.drop_last(), c);
        if s.last() == c {
            r.push(Seq::empty())
        } else {
            r.update(r.len() - 1, r.last().push(s.last()))
        }
    }
}

/// `l` without one final carriage return.
pub open spec fn strip_cr(l: Seq<char>) -> Seq<char> {
    if l.len() > 0 && l.last() == '\r' {
        l.drop_last()
    } else {
        l
    }
}

/// The lines of `s` as `str::lines` gives them: split at `\n`, a `\r` just
/// before a `\n` dropped, and no empty line after a final `\n`.
pub open spec fn lines(s: Seq<char>) -> Seq<Seq<char>> {
    let p = split_all(s, '\n');
    let ended = p.drop_last().map_values(|l: Seq<char>| strip_cr(l));
    if p.last().len() == 0 {
        ended
    } else {
        ended.push(p.last())
    }
}

/// The items of `list` with `sep` between each two of them.
pub open spec fn join(list: Seq<Seq<char>>, sep: Seq<char>) -> Seq<char>
    decreases list.len(),
{
    if list.len() == 0 {
        Seq::empty()
    } else if list.len() == 1 {
        list[0]
    } else {
        join(list.drop_last(), sep) + sep + list.last()
    }
}

/// `split_all` never gives an empty list.
pub proof fn lemma_split_all_nonempty(s: Seq<char>, c: char)
    ensures
        split_all(s, c).len() >= 1,
    decreases s.len(),
{
    if s.len() > 0 {
        lemma_split_all_nonempty(s.drop_last(), c);
    }
}

/// Whether `s` begins with the character `c`.
pub fn starts_with_char(s: &str, c: char) -> (r: bool)
    ensures
        r == begins_with(s@, c),
{
    s.unicode_len() > 0 && s.get_char(0) == c
}

/// Splits `s` at its first `c`: the first item of `s.split(c)`, and what
/// follows the separator, if there is one.
pub fn split_once(s: &str, c: char) -> (res: (String, Option<String>))
    ensures
        res.0@ == first_field(s@, c),
        res.1 is Some <==> after_separator(s@, c) is Some,
        res.1 is Some ==> res.1->0@ == after_separator(s@, c)->0,
{
    let n = s.unicode_len();
    let mut k: usize = 0;
    assert(s@.skip(0) =~= s@);
    assert(s@.take(0) + first_field(s@, c) =~= first_field(s@, c));
    while k < n && s.get_char(k) != c
        invariant
            k <= n,
            n == s@.len(),
            first_field(s@, c) == s@.take(k as int) + first_field(s@.skip(k as int), c),
            after_separator(s@, c) == after_separator(s@.skip(k as int), c),
        decreases n - k,
    {
        let ghost rest = s@.skip(k as int);
        assert(rest.drop_first() =~= s@.skip(k + 1));
        assert(s@.take(k + 1) =~= s@.take(k as int).push(s@[k as int]));
        assert(s@.take(k as int) + (seq![s@[k as int]] + first_field(s@.skip(k + 1), c))
            =~= s@.take(k + 1) + first_field(s@.skip(k + 1), c));
        k += 1;
    }
    let head = String::from_str(s.substring_char(0, k));
    if k == n {
        assert(s@.skip(k as int) =~= Seq::<char>::empty());
        assert(s@.take(k as int) + Seq::<char>::empty() =~= s@.take(k as int));
        (head, None)
    } else {
        assert(s@.skip(k as int).drop_first() =~= s@.skip(k + 1));
        assert(s@.take(k as int) + Seq::<char>::empty() =~= s@.take(k as int));
        let tail = String::from_str(s.substring_char(k + 1, n));
        assert(s@.subrange(k + 1, n as int) =~= s@.skip(k + 1));
        (head, Some(tail))
    }
}

/// `s` with its leading copies of `c` dropped.
pub fn skip_leading_chars(s: &str, c: char) -> (r: String)
    ensures
        r@ == skip_leading(s@, c),
{
    let n = s.unicode_len();
    let mut i: usize = 0;
    assert(s@.skip(0) =~= s@);
    while i < n && s.get_char(i) == c
        invariant
            i <= n,
            n == s@.len(),
            skip_leading(s@, c) == skip_leading(s@.skip(i as int), c),
        decreases n - i,
    {
        assert(s@.skip(i as int).drop_first() =~= s@.skip(i + 1));
        i += 1;
    }
    assert(s@.skip(i as int) =~= s@.subrange(i as int, n as int));
    String::from_str(s.substring_char(i, n))
}

/// Whether the non-empty `p` stands in `s` from position `i` on.
fn matches_at(s: &str, n: usize, i: usize, p: &str, m: usize) -> (r: bool)
    requires
        n == s@.len(),
        m == p@.len(),
        i <= n,
    ensures
        r == (i + m <= n && s@.subrange(i as int, i + m) == p@),
{
    if m > n - i {
        return false;
    }
    let mut k: usize = 0;
    while k < m
        invariant
            k <= m,
            i + m <= n,
            n == s@.len(),
            m == p@.len(),
            forall|t: int| 0 <= t < k ==> s@[i + t] == p@[t],
        decreases m - k,
    {
        if s.get_char(i + k) != p.get_char(k) {
            assert(s@.subrange(i as int, i + m)[k as int] != p@[k as int]);
            return false;
        }
        k += 1;
    }
    assert(s@.subrange(i as int, i + m) =~= p@);
    true
}

/// `s` with each occurrence of the non-empty `p` replaced by `r`, left to
/// right.
pub fn replace(s: &str, p: &str, r: &str) -> (res: String)
    requires
        p@.len() > 0,
    ensures
        res@ == replace_all(s@, p@, r@),
{
    let n = s.unicode_len();
    let m = p.unicode_len();
    let mut res = String::new();
    let mut i: usize = 0;
    assert(s@.skip(0) =~= s@);
    assert(res@ + replace_all(s@, p@, r@) =~= replace_all(s@, p@, r@));
    while i < n
        invariant
            i <= n,
            n == s@.len(),
            m == p@.len(),
            m > 0,
            replace_all(s@, p@, r@) == res@ + replace_all(s@.skip(i as int), p@, r@),
        decreases n - i,
    {
        let ghost rest = s@.skip(i as int);
        let ghost before = res@;
        if matches_at(s, n, i, p, m) {
            assert(rest.take(m as int) =~= s@.subrange(i as int, i + m));
            assert(rest.skip(m as int) =~= s@.skip(i + m));
            res.append(r);
            assert(before + (r@ + replace_all(s@.skip(i + m), p@, r@))
                =~= res@ + replace_all(s@.skip(i + m), p@, r@));
            i += m;
        } else {
            let c = s.get_char(i);
            proof {
                assert(rest.drop_first() =~= s@.skip(i + 1));
                if rest.len() < m {
                    assert(rest =~= seq![c] + s@.skip(i + 1));
                } else {
                    assert(rest.take(m as int) =~= s@.subrange(i as int, i + m));
                }
            }
            assert(replace_all(rest, p@, r@) == seq![c] + replace_all(s@.skip(i + 1), p@, r@));
            push_char(&mut res, c);
            assert(before + (seq![c] + replace_all(s@.skip(i + 1), p@, r@))
                =~= res@ + replace_all(s@.skip(i + 1), p@, r@));
            i += 1;
        }
    }
    assert(s@.skip(n as int) =~= Seq::<char>::empty());
    assert(res@ + Seq::<char>::empty() =~= res@);
    res
}

/// `l` without one final carriage return.
fn strip_carriage_return(l: &String) -> (r: String)
    ensures
        r@ == strip_cr(l@),
{
    let n = l.as_str().unicode_len();
    if n > 0 && l.as_str().get_char(n - 1) == '\r' {
        String::from_str(l.as_str().substring_char(0, n - 1))
    } else {
        l.clone()
    }
}

/// Whether `key` is one of the lines of `text`.
pub fn has_line(text: &str, key: &str) -> (r: bool)
    ensures
        r == lines(text@).contains(key@),
{
    let n = text.unicode_len();
    let key_s = String::from_str(key);
    let mut cur = String::new();
    let mut found = false;
    let mut i: usize = 0;
    assert(text@.take(0) =~= Seq::<char>::empty());
    while i < n
        invariant
            i <= n,
            n == text@.len(),
            key_s@ == key@,
            split_all(text@.take(i as int), '\n').len() >= 1,
            cur@ == split_all(text@.take(i as int), '\n').last(),
            found == exists|j: int|
                0 <= j < split_all(text@.take(i as int), '\n').len() - 1
                    && #[trigger] strip_cr(split_all(text@.take(i as int), '\n')[j]) == key@,
        decreases n - i,
    {
        let c = text.get_char(i);
        let ghost p = split_all(text@.take(i as int), '\n');
        assert(text@.take(i + 1).drop_last() =~= text@.take(i as int));
        assert(text@.take(i + 1).last() == c);
        let ghost q = split_all(text@.take(i + 1), '\n');
        if c == '\n' {
            let line = strip_carriage_return(&cur);
            let hit = line == key_s;
            assert(q == p.push(Seq::<char>::empty()));
            if hit {
                assert(strip_cr(q[p.len() - 1]) == key@);
            }
            if found {
                proof {
                    let j = choose|j: int|
                        0 <= j < p.len() - 1 && #[trigger] strip_cr(p[j]) == key@;
                    assert(strip_cr(q[j]) == key@);
                }
            }
            if !found && !hit {
                assert forall|j: int| 0 <= j < q.len() - 1 implies #[trigger] strip_cr(q[j]) != key@ by {
                    if j < p.len() - 1 {
                        assert(q[j] == p[j]);
                    }
                }
            }
            found = found || hit;
            cur = String::new();
        } else {
            assert(q == p.update(p.len() - 1, p.last().push(c)));
            push_char(&mut cur, c);
            if found {
                proof {
                    let j = choose|j: int|
                        0 <= j < p.len() - 1 && #[trigger] strip_cr(p[j]) == key@;
                    assert(q[j] == p[j]);
                }
            }
            if !found {
                assert forall|j: int| 0 <= j < q.len() - 1 implies #[trigger] strip_cr(q[j]) != key@ by {
                    assert(q[j] == p[j]);
                }
            }
        }
        i += 1;
    }
    assert(text@.take(n as int) =~= text@);
    let last_hit = cur.as_str().unicode_len() > 0 && cur == key_s;
    let ghost p = split_all(text@, '\n');
    let ghost ended = p.drop_last().map_values(|l: Seq<char>| strip_cr(l));
    proof {
        if found {
            let j = choose|j: int| 0 <= j < p.len() - 1 && #[trigger] strip_cr(p[j]) == key@;
            assert(ended[j] == key@);
            assert(lines(text@)[j] == key@);
        } else if last_hit {
            assert(lines(text@)[ended.len() as int] == key@);
        } else {
            assert forall|j: int| 0 <= j < lines(text@).len() implies lines(text@)[j] != key@ by {
                if j < ended.len() {
                    assert(ended[j] == strip_cr(p[j]));
                }
            }
        }
    }
    found || last_hit
}

/// The items of `list` joined with `sep` between each two of them.
pub fn join_strings(list: &Vec<String>, sep: &str) -> (res: String)
    ensures
        res@ == join(list@.map_values(|v: String| v@), sep@),
{
    let ghost views = list@.map_values(|v: String| v@);
    let mut res = String::new();
    let mut i: usize = 0;
    assert(views.take(0) =~= Seq::<Seq<char>>::empty());
    while i < list.len()
        invariant
            i <= list.len(),
            views == list@.map_values(|v: String| v@),
            res@ == join(views.take(i as int), sep@),
        decreases list.len() - i,
    {
        assert(views.take(i + 1).drop_last() =~= views.take(i as int));
        if i != 0 {
            res.append(sep);
        }
        res.append(list[i].as_str());
        if i == 0 {
            assert(res@ =~= join(views.take(1), sep@));
        }
        i += 1;
    }
    assert(views.take(list.len() as int) =~= views);
    res
}

/// The first item of `s.split(c)` stands at the start of `s`.
pub proof fn lemma_first_field_prefix(s: Seq<char>, c: char)
    ensures
        first_field(s, c).len() <= s.len(),
        s.take(first_field(s, c).len() as int) == first_field(s, c),
    decreases s.len(),
{
    if s.len() > 0 && s[0] != c {
        lemma_first_field_prefix(s.drop_first(), c);
        let f = first_field(s.drop_first(), c);
        assert(s.take(f.len() as int + 1) =~= seq![s[0]] + s.drop_first().take(f.len() as int));
    } else if s.len() > 0 {
        assert(s.take(0) =~= Seq::<char>::empty());
    }
}

/// The text of `s` from byte `n` of its UTF-8 encoding on (`&s[n..]`).
pub open spec fn after_byte(s: Seq<char>, n: int) -> Seq<char> {
    decode_utf8(encode_utf8(s).subrange(n, encode_utf8(s).len() as int))
}

/// The encoding of a concatenation is the concatenation of the encodings.
pub proof fn lemma_encode_concat(a: Seq<char>, b: Seq<char>)
    ensures
        encode_utf8(a + b) == encode_utf8(a) + encode_utf8(b),
    decreases a.len(),
{
    if a.len() == 0 {
        assert(a + b =~= b);
        assert(encode_utf8(a) =~= Seq::<u8>::empty());
        assert(encode_utf8(a) + encode_utf8(b) =~= encode_utf8(b));
    } else {
        assert((a + b).drop_first() =~= a.drop_first() + b);
        assert((a + b)[0] == a[0]);
        lemma_encode_concat(a.drop_first(), b);
        assert(encode_scalar(a[0] as u32) + (encode_utf8(a.drop_first()) + encode_utf8(b))
            =~= (encode_scalar(a[0] as u32) + encode_utf8(a.drop_first())) + encode_utf8(b));
    }
}

/// The end of the encoding of `a` is a character boundary of the encoding of
/// `a + b`.
pub proof fn lemma_boundary_after(a: Seq<char>, b: Seq<char>)
    ensures
        is_char_boundary(encode_utf8(a + b), encode_utf8(a).len() as int),
    decreases a.len(),
{
    broadcast use vstd::utf8::encode_utf8_valid_utf8;
    let bytes = encode_utf8(a + b);
    assert(vstd::utf8::valid_utf8(bytes));
    if a.len() > 0 {
        lemma_encode_concat(a, b);
        assert((a + b)[0] == a[0]);
        assert((a + b).drop_first() =~= a.drop_first() + b);
        vstd::utf8::encode_utf8_first_scalar(a + b);
        let l = encode_scalar(a[0] as u32).len() as int;
        assert(l >= 1) by {
            reveal_with_fuel(encode_scalar, 1);
        }
        assert(vstd::utf8::pop_first_scalar(bytes) =~= encode_utf8(a.drop_first() + b)) by {
            lemma_encode_concat(a.drop_first(), b);
            assert(bytes == encode_scalar(a[0] as u32) + encode_utf8(a.drop_first() + b));
        }
        lemma_boundary_after(a.drop_first(), b);
        assert(encode_utf8(a).len() == l + encode_utf8(a.drop_first()).len());
    }
}

/// When the first `n` characters of `s` are ASCII, byte `n` is a character
/// boundary and the text from it on is `s` without those characters.
pub proof fn lemma_ascii_head(s: Seq<char>, n: int)
    requires
        0 <= n <= s.len(),
        all_ascii(s.take(n)),
    ensures
        is_char_boundary(encode_utf8(s), n),
        after_byte(s, n) == s.skip(n),
{
    broadcast use vstd::utf8::encode_utf8_decode_utf8;
    let a = s.take(n);
    let b = s.skip(n);
    assert(s =~= a + b);
    vstd::utf8::is_ascii_chars_encode_utf8(a);
    lemma_boundary_after(a, b);
    lemma_encode_concat(a, b);
    assert(encode_utf8(s).subrange(n, encode_utf8(s).len() as int) =~= encode_utf8(b));
}


/// Whether `s` has no whitespace at either end.
pub open spec fn is_trimmed(s: Seq<char>) -> bool {
    s.len() > 0 ==> !white_space(s[0]) && !white_space(s.last())
}

/// On an ASCII character, `ascii_lower` gives an ASCII character, changes
/// nothing the second time, and keeps whether it is whitespace.
pub proof fn lemma_ascii_lower(c: char)
    requires
        '\0' <= c <= '\u{7f}',
    ensures
        '\0' <= ascii_lower(c) <= '\u{7f}',
        ascii_lower(ascii_lower(c)) == ascii_lower(c),
        white_space(ascii_lower(c)) == white_space(c),
{
}

proof fn lemma_trim_start_suffix(s: Seq<char>)
    ensures
        trim_start(s).len() <= s.len(),
        trim_start(s) == s.skip(s.len() - trim_start(s).len()),
        trim_start(s).len() > 0 ==> !white_space(trim_start(s)[0]),
    decreases s.len(),
{
    if s.len() > 0 && white_space(s[0]) {
        lemma_trim_start_suffix(s.drop_first());
        assert(s.drop_first().skip(s.drop_first().len() - trim_start(s).len())
            =~= s.skip(s.len() - trim_start(s).len()));
    } else {
        assert(s.skip(0) =~= s);
    }
}

proof fn lemma_trim_end_prefix(s: Seq<char>)
    ensures
        trim_end(s).len() <= s.len(),
        trim_end(s) == s.take(trim_end(s).len() as int),
        trim_end(s).len() > 0 ==> !white_space(trim_end(s).last()),
    decreases s.len(),
{
    if s.len() > 0 && white_space(s.last()) {
        lemma_trim_end_prefix(s.drop_last());
        assert(s.drop_last().take(trim_end(s).len() as int) =~= s.take(trim_end(s).len() as int));
    } else {
        assert(s.take(s.len() as int) =~= s);
    }
}

/// `trimmed` leaves no whitespace at either end, keeps ASCII text ASCII, and
/// changes nothing on text with no whitespace at either end.
pub proof fn lemma_trimmed(s: Seq<char>)
    ensures
        is_trimmed(trimmed(s)),
        all_ascii(s) ==> all_ascii(trimmed(s)),
        is_trimmed(s) ==> trimmed(s) == s,
{
    let a = trim_start(s);
    lemma_trim_start_suffix(s);
    lemma_trim_end_prefix(a);
    let b = trim_end(a);
    if b.len() > 0 {
        assert(b[0] == a[0]);
    }
    assert forall|i: int| 0 <= i < b.len() implies b[i] == s[s.len() - a.len() + i] by {
        assert(b[i] == a[i]);
    }
}

/// On ASCII text, `lowercase` gives ASCII text of the same length, changes
/// nothing the second time, and keeps whether the text has whitespace at
/// either end.
pub proof fn lemma_lowercase_ascii(s: Seq<char>)
    requires
        all_ascii(s),
    ensures
        all_ascii(lowercase(s)),
        lowercase(s).len() == s.len(),
        lowercase(lowercase(s)) == lowercase(s),
        is_trimmed(s) ==> is_trimmed(lowercase(s)),
{
    let l = s.map_values(|c: char| ascii_lower(c));
    assert forall|i: int| 0 <= i < l.len() implies '\0' <= #[trigger] l[i] <= '\u{7f}'
        && ascii_lower(l[i]) == l[i] && white_space(l[i]) == white_space(s[i]) by {
        lemma_ascii_lower(s[i]);
    }
    assert(lowercase(l) =~= l);
    if s.len() > 0 {
        assert(l.last() == l[l.len() - 1]);
    }
}

/// Trimming and lowercasing ASCII text a second time changes nothing.
pub proof fn law_trim_lowercase_twice(s: Seq<char>)
    requires
        all_ascii(s),
    ensures
        lowercase(trimmed(lowercase(trimmed(s)))) == lowercase(trimmed(s)),
{
    let t = trimmed(s);
    lemma_trimmed(s);
    lemma_lowercase_ascii(t);
    lemma_trimmed(lowercase(t));
}


/// Trailing whitespace of `a + b` is that of `b` when `a` ends in a
/// character that is not whitespace.
pub proof fn lemma_trim_end_concat(a: Seq<char>, b: Seq<char>)
    requires
        a.len() > 0,
        !white_space(a.last()),
    ensures
        trim_end(a + b) == a + trim_end(b),
    decreases b.len(),
{
    if b.len() > 0 && white_space(b.last()) {
        assert((a + b).drop_last() =~= a + b.drop_last());
        lemma_trim_end_concat(a, b.drop_last());
    } else if b.len() == 0 {
        assert(a + b =~= a);
    } else {
        assert((a + b).last() == b.last());
    }
}

/// However many copies of `c` stand at the start, `skip_leading` takes them
/// all.
pub proof fn lemma_skip_leading_repeated(c: char, n: nat, s: Seq<char>)
    ensures
        skip_leading(Seq::new(n, |i: int| c) + s, c) == skip_leading(s, c),
    decreases n,
{
    let t = Seq::new(n, |i: int| c) + s;
    if n > 0 {
        assert(t[0] == c);
        assert(t.drop_first() =~= Seq::new((n - 1) as nat, |i: int| c) + s);
        lemma_skip_leading_repeated(c, (n - 1) as nat, s);
    } else {
        assert(t =~= s);
    }
}

/// The first field of a word without `c`, followed by `c` and anything, is
/// the word.
pub proof fn lemma_first_field_word(w: Seq<char>, c: char, rest: Seq<char>)
    requires
        !w.contains(c),
    ensures
        first_field(w + seq![c] + rest, c) == w,
        first_field(w, c) == w,
    decreases w.len(),
{
    let s = w + seq![c] + rest;
    if w.len() == 0 {
        assert(s[0] == c);
    } else {
        assert(s[0] == w[0]);
        assert(!w.drop_first().contains(c)) by {
            if w.drop_first().contains(c) {
                let j = w.drop_first().index_of(c);
                assert(w[j + 1] == c);
            }
        }
        assert(s.drop_first() =~= w.drop_first() + seq![c] + rest);
        lemma_first_field_word(w.drop_first(), c, rest);
        assert(seq![w[0]] + w.drop_first() =~= w);
    }
}

/// Taking out `c` works piece by piece.
pub proof fn lemma_remove_char_concat(a: Seq<char>, b: Seq<char>, c: char)
    ensures
        remove_char(a + b, c) == remove_char(a, c) + remove_char(b, c),
    decreases b.len(),
{
    if b.len() == 0 {
        assert(a + b =~= a);
        assert(remove_char(a, c) + remove_char(b, c) =~= remove_char(a, c));
    } else {
        assert((a + b).drop_last() =~= a + b.drop_last());
        assert((a + b).last() == b.last());
        lemma_remove_char_concat(a, b.drop_last(), c);
        if b.last() != c {
            assert(remove_char(a, c) + remove_char(b.drop_last(), c).push(b.last())
                =~= (remove_char(a, c) + remove_char(b.drop_last(), c)).push(b.last()));
        }
    }
}

} // verus!
