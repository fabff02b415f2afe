use vstd::prelude::*;
use vstd::string::StrSliceExecFns;

verus! {

/// The characters of `s`, one by one.
pub fn chars_of(s: &str) -> (r: Vec<char>)
    ensures
        r@ == s@,
{
    let n = s.unicode_len();
    let mut v: Vec<char> = Vec::new();
    for i in 0..n
        invariant
            n == s@.len(),
            v@ == s@.take(i as int),
    {
        v.push(s.get_char(i));
        assert(v@ =~= s@.take(i + 1));
    }
    assert(v@ =~= s@);
    v
}

/// Relies on `FromIterator<&char>` for `String` (`Iterator::collect`): the string holds
/// exactly these characters, in order.
#[verifier::external_body]
pub(crate) fn string_from_chars(v: &Vec<char>) -> (r: String)
    ensures
        r@ == v@,
{
    v.iter().collect()
}

/// Whether two character vectors hold the same characters.
pub fn same_chars(a: &Vec<char>, b: &[char]) -> (r: bool)
    ensures
        r == (a@ == b@),
{
    if a.len() != b.len() {
        return false;
    }
    for i in 0..a.len()
        invariant
            a@.len() == b@.len(),
            forall|j: int| 0 <= j < i ==> a@[j] == b@[j],
    {
        if a[i] != b[i] {
            return false;
        }
    }
    assert(a@ =~= b@);
    true
}

/// The characters of `v` from `lo` up to `hi`.
pub fn slice_chars(v: &Vec<char>, lo: usize, hi: usize) -> (r: Vec<char>)
    requires
        lo <= hi <= v@.len(),
    ensures
        r@ == v@.subrange(lo as int, hi as int),
{
    let mut out: Vec<char> = Vec::new();
    for i in lo..hi
        invariant
            lo <= hi <= v@.len(),
            out@ == v@.subrange(lo as int, i as int),
    {
        out.push(v[i]);
        assert(out@ =~= v@.subrange(lo as int, i + 1));
    }
    out
}

/// Position of the first `c` in `s`, or the length of `s` where it has none.
pub open spec fn find(s: Seq<char>, c: char) -> nat
    decreases s.len(),
{
    if s.len() == 0 {
        0
    } else if s[0] == c {
        0
    } else {
        1 + find(s.skip(1), c)
    }
}

/// `s` cut at each `c`, into at most `n` pieces, the last of which keeps the rest.
pub open spec fn splitn(s: Seq<char>, n: nat, c: char) -> Seq<Seq<char>>
    decreases n,
{
    if n <= 1 || find(s, c) >= s.len() {
        seq![s]
    } else {
        seq![s.take(find(s, c) as int)] + splitn(s.skip(find(s, c) + 1int), (n - 1) as nat, c)
    }
}

pub proof fn lemma_find_first(s: Seq<char>, c: char, i: int)
    requires
        0 <= i <= s.len(),
        forall|j: int| 0 <= j < i ==> s[j] != c,
        i == s.len() || s[i] == c,
    ensures
        find(s, c) == i,
    decreases i,
{
    if i > 0 {
        lemma_find_first(s.skip(1), c, i - 1);
    }
}

pub proof fn lemma_find_bound(s: Seq<char>, c: char)
    ensures
        find(s, c) <= s.len(),
        find(s, c) < s.len() ==> s[find(s, c) as int] == c,
        forall|j: int| 0 <= j < find(s, c) ==> s[j] != c,
    decreases s.len(),
{
    if s.len() > 0 && s[0] != c {
        lemma_find_bound(s.skip(1), c);
        assert forall|j: int| 0 <= j < find(s, c) implies s[j] != c by {
            if j > 0 {
                assert(s.skip(1)[j - 1] == s[j]);
            }
        }
    }
}

/// Position of the first `c` in `v`, or its length where it has none.
pub fn find_char(v: &Vec<char>, c: char) -> (r: usize)
    ensures
        r == find(v@, c),
{
    let mut i: usize = 0;
    while i < v.len()
        invariant
            i <= v@.len(),
            forall|j: int| 0 <= j < i ==> v@[j] != c,
        decreases v@.len() - i,
    {
        if v[i] == c {
            proof {
                lemma_find_first(v@, c, i as int);
            }
            return i;
        }
        i = i + 1;
    }
    proof {
        lemma_find_first(v@, c, i as int);
    }
    i
}

/// The views of a vector of character vectors.
pub open spec fn views(parts: Seq<Vec<char>>) -> Seq<Seq<char>> {
    parts.map_values(|p: Vec<char>| p@)
}

/// Cuts `v` at each `c` into at most `n` pieces, the last keeping the rest.
pub fn split_chars(v: &Vec<char>, n: usize, c: char) -> (r: Vec<Vec<char>>)
    ensures
        views(r@) == splitn(v@, n as nat, c),
{
    let mut parts: Vec<Vec<char>> = Vec::new();
    let mut rest: Vec<char> = slice_chars(v, 0, v.len());
    let mut k: usize = n;
    assert(rest@ =~= v@);
    loop
        invariant
            views(parts@) + splitn(rest@, k as nat, c) == splitn(v@, n as nat, c),
        decreases k,
    {
        let at = find_char(&rest, c);
        if k <= 1 || at >= rest.len() {
            let ghost before = parts@;
            parts.push(rest);
            assert(views(parts@) =~= views(before) + seq![rest@]);
            return parts;
        }
        proof {
            lemma_find_bound(rest@, c);
        }
        let head = slice_chars(&rest, 0, at);
        let tail = slice_chars(&rest, at + 1, rest.len());
        let ghost before = parts@;
        let ghost old_rest = rest@;
        parts.push(head);
        assert(views(parts@) =~= views(before) + seq![head@]);
        assert(head@ == old_rest.take(at as int));
        assert(tail@ =~= old_rest.skip(at + 1));
        assert(splitn(old_rest, k as nat, c) == seq![head@] + splitn(tail@, (k - 1) as nat, c));
        assert(views(parts@) + splitn(tail@, (k - 1) as nat, c) =~= views(before) + splitn(
            old_rest,
            k as nat,
            c,
        ));
        rest = tail;
        k = k - 1;
    }
}

/// Cutting `a`, `c`, `b` at `c` gives `a`, then the pieces of `b`, where `a` holds no `c`.
pub proof fn lemma_splitn_prefix(a: Seq<char>, b: Seq<char>, n: nat, c: char)
    requires
        n > 1,
        !a.contains(c),
    ensures
        splitn(a + seq![c] + b, n, c) == seq![a] + splitn(b, (n - 1) as nat, c),
{
    let s = a + seq![c] + b;
    assert forall|j: int| 0 <= j < a.len() implies s[j] != c by {
        assert(s[j] == a[j]);
    }
    assert(s[a.len() as int] == c);
    lemma_find_first(s, c, a.len() as int);
    assert(s.take(a.len() as int) =~= a);
    assert(s.skip(a.len() + 1int) =~= b);
}

/// A piece without `c` is not cut.
pub proof fn lemma_splitn_whole(a: Seq<char>, n: nat, c: char)
    requires
        !a.contains(c),
    ensures
        splitn(a, n, c) == seq![a],
{
    lemma_find_bound(a, c);
    if find(a, c) < a.len() {
        assert(a[find(a, c) as int] == c);
    }
}

/// `parts` written one after another, with `c` between each two.
pub open spec fn joined(parts: Seq<Seq<char>>, c: char) -> Seq<char>
    decreases parts.len(),
{
    if parts.len() <= 1 {
        if parts.len() == 1 {
            parts[0]
        } else {
            Seq::empty()
        }
    } else {
        parts[0] + seq![c] + joined(parts.skip(1), c)
    }
}

/// Cutting joined pieces at their separator gives the pieces back, where no piece holds
/// the separator and there are no more pieces than the cut allows.
pub proof fn lemma_split_joined(parts: Seq<Seq<char>>, n: nat, c: char)
    requires
        1 <= parts.len() <= n,
        forall|i: int| 0 <= i < parts.len() ==> !(#[trigger] parts[i]).contains(c),
    ensures
        splitn(joined(parts, c), n, c) == parts,
    decreases parts.len(),
{
    if parts.len() == 1 {
        lemma_splitn_whole(parts[0], n, c);
        assert(seq![parts[0]] =~= parts);
    } else {
        let rest = parts.skip(1);
        assert forall|i: int| 0 <= i < rest.len() implies !(#[trigger] rest[i]).contains(c) by {
            assert(rest[i] == parts[i + 1]);
        }
        lemma_split_joined(rest, (n - 1) as nat, c);
        lemma_splitn_prefix(parts[0], joined(rest, c), n, c);
        assert(seq![parts[0]] + rest =~= parts);
    }
}

/// The value of a digit character in the given base, if it is one.
pub open spec fn digit_value(c: char, base: nat) -> Option<nat> {
    let v: int = if '0' <= c && c <= '9' {
        (c as u32) - 48
    } else if 'a' <= c && c <= 'f' {
        (c as u32) - 87
    } else if 'A' <= c && c <= 'F' {
        (c as u32) - 55
    } else {
        100
    };
    if v < base {
        Some(v as nat)
    } else {
        None
    }
}

pub open spec fn all_digits(s: Seq<char>, base: nat) -> bool {
    forall|i: int| 0 <= i < s.len() ==> (#[trigger] digit_value(s[i], base)) is Some
}

/// The number that the digits of `s` write in the given base.
pub open spec fn numeral_value(s: Seq<char>, base: nat) -> nat
    decreases s.len(),
{
    if s.len() == 0 {
        0
    } else {
        numeral_value(s.drop_last(), base) * base + match digit_value(s.last(), base) {
            Some(v) => v,
            None => 0,
        }
    }
}

/// The lower-case character of a digit below sixteen.
pub open spec fn digit_char(d: nat) -> char {
    if d < 10 {
        ((48 + d) as u8) as char
    } else {
        ((87 + d) as u8) as char
    }
}

/// `n` in decimal, without leading zeros.
pub open spec fn decimal(n: nat) -> Seq<char>
    decreases n,
{
    if n < 10 {
        seq![digit_char(n)]
    } else {
        decimal(n / 10) + seq![digit_char(n % 10)]
    }
}

/// `n` in lower-case hexadecimal, without leading zeros.
pub open spec fn hexadecimal(n: nat) -> Seq<char>
    decreases n,
{
    if n < 16 {
        seq![digit_char(n)]
    } else {
        hexadecimal(n / 16) + seq![digit_char(n % 16)]
    }
}

pub proof fn lemma_digit_char(d: nat, base: nat)
    requires
        d < base <= 16,
    ensures
        digit_value(digit_char(d), base) == Some(d),
        digit_char(d) != '/' && digit_char(d) != '.' && digit_char(d) != ':' && digit_char(d) != '+',
        d > 0 ==> digit_char(d) != '0',
{
}

pub proof fn lemma_decimal(n: nat)
    ensures
        all_digits(decimal(n), 10),
        numeral_value(decimal(n), 10) == n,
        1 <= decimal(n).len(),
        n < 10 ==> decimal(n).len() == 1,
        n < 100 ==> decimal(n).len() <= 2,
        n < 1000 ==> decimal(n).len() <= 3,
        n >= 10 ==> decimal(n)[0] != '0',
        !decimal(n).contains('/') && !decimal(n).contains('.') && !decimal(n).contains(':'),
        decimal(n)[0] != '+',
    decreases n,
{
    lemma_digit_char(n % 10, 10);
    if n >= 10 {
        lemma_decimal(n / 10);
        let s = decimal(n);
        assert(s.drop_last() =~= decimal(n / 10));
        assert(s[0] == decimal(n / 10)[0]);
        assert forall|i: int| 0 <= i < s.len() implies (#[trigger] digit_value(s[i], 10)) is Some by {
            if i < s.len() - 1 {
                assert(s[i] == decimal(n / 10)[i]);
            }
        }
        assert forall|c: char| c == '/' || c == '.' || c == ':' implies !s.contains(c) by {
            if s.contains(c) {
                let i = choose|i: int| 0 <= i < s.len() && s[i] == c;
                if i < s.len() - 1 {
                    assert(decimal(n / 10)[i] == c);
                }
            }
        }
    } else {
        lemma_digit_char(n, 10);
        reveal_with_fuel(numeral_value, 2);
        assert(decimal(n).drop_last() =~= Seq::<char>::empty());
    }
}

pub proof fn lemma_hexadecimal(n: nat)
    ensures
        all_digits(hexadecimal(n), 16),
        numeral_value(hexadecimal(n), 16) == n,
        1 <= hexadecimal(n).len(),
        n < 16 ==> hexadecimal(n).len() == 1,
        n < 256 ==> hexadecimal(n).len() <= 2,
        n < 4096 ==> hexadecimal(n).len() <= 3,
        n < 65536 ==> hexadecimal(n).len() <= 4,
        !hexadecimal(n).contains(':') && !hexadecimal(n).contains('/'),
    decreases n,
{
    lemma_digit_char(n % 16, 16);
    if n >= 16 {
        lemma_hexadecimal(n / 16);
        let s = hexadecimal(n);
        assert(s.drop_last() =~= hexadecimal(n / 16));
        assert forall|i: int| 0 <= i < s.len() implies (#[trigger] digit_value(s[i], 16)) is Some by {
            if i < s.len() - 1 {
                assert(s[i] == hexadecimal(n / 16)[i]);
            }
        }
        assert forall|c: char| c == '/' || c == ':' implies !s.contains(c) by {
            if s.contains(c) {
                let i = choose|i: int| 0 <= i < s.len() && s[i] == c;
                if i < s.len() - 1 {
                    assert(hexadecimal(n / 16)[i] == c);
                }
            }
        }
    } else {
        lemma_digit_char(n, 16);
        reveal_with_fuel(numeral_value, 2);
        assert(hexadecimal(n).drop_last() =~= Seq::<char>::empty());
    }
}

fn digit_char_of(d: u32) -> (c: char)
    requires
        d < 16,
    ensures
        c == digit_char(d as nat),
{
    if d < 10 {
        ((48 + d) as u8) as char
    } else {
        ((87 + d) as u8) as char
    }
}

/// The decimal digits of `n`.
pub fn decimal_chars(n: u32) -> (r: Vec<char>)
    ensures
        r@ == decimal(n as nat),
    decreases n,
{
    if n < 10 {
        let mut v: Vec<char> = Vec::new();
        v.push(digit_char_of(n));
        assert(v@ =~= decimal(n as nat));
        v
    } else {
        let mut v = decimal_chars(n / 10);
        v.push(digit_char_of(n % 10));
        v
    }
}

/// The lower-case hexadecimal digits of `n`.
pub fn hexadecimal_chars(n: u32) -> (r: Vec<char>)
    ensures
        r@ == hexadecimal(n as nat),
    decreases n,
{
    if n < 16 {
        let mut v: Vec<char> = Vec::new();
        v.push(digit_char_of(n));
        assert(v@ =~= hexadecimal(n as nat));
        v
    } else {
        let mut v = hexadecimal_chars(n / 16);
        v.push(digit_char_of(n % 16));
        v
    }
}

/// The value of a non-empty run of digits in `base`, where it is at most `limit`.
pub open spec fn bounded_numeral(s: Seq<char>, base: nat, limit: nat) -> Option<nat> {
    if s.len() > 0 && all_digits(s, base) && numeral_value(s, base) <= limit {
        Some(numeral_value(s, base))
    } else {
        None
    }
}

fn digit_value_of(c: char, base: u32) -> (r: Option<u32>)
    requires
        base <= 16,
    ensures
        r is Some <==> digit_value(c, base as nat) is Some,
        r is Some ==> r->0 == digit_value(c, base as nat)->0,
{
    let v: u32 = if '0' <= c && c <= '9' {
        (c as u32) - 48
    } else if 'a' <= c && c <= 'f' {
        (c as u32) - 87
    } else if 'A' <= c && c <= 'F' {
        (c as u32) - 55
    } else {
        100
    };
    if v < base {
        Some(v)
    } else {
        None
    }
}

proof fn lemma_numeral_prefix_le(s: Seq<char>, i: int, base: nat)
    requires
        0 <= i <= s.len(),
        base >= 1,
    ensures
        numeral_value(s.take(i), base) <= numeral_value(s, base),
    decreases s.len(),
{
    if i < s.len() {
        let t = s.drop_last();
        assert(s.take(i) =~= t.take(i));
        lemma_numeral_prefix_le(t, i, base);
        let a = numeral_value(t, base);
        assert(a * base >= a) by (nonlinear_arith)
            requires
                base >= 1,
        ;
    } else {
        assert(s.take(i) =~= s);
    }
}

/// Reads `s` as a numeral in `base`: its value, where every character is a digit, there is
/// at least one, and the value is at most `limit`.
pub fn read_numeral(s: &Vec<char>, base: u32, limit: u32) -> (r: Option<u32>)
    requires
        2 <= base <= 16,
        limit < 0x10000,
    ensures
        r is Some <==> bounded_numeral(s@, base as nat, limit as nat) is Some,
        r is Some ==> r->0 == bounded_numeral(s@, base as nat, limit as nat)->0,
{
    if s.len() == 0 {
        return None;
    }
    let mut acc: u32 = 0;
    for i in 0..s.len()
        invariant
            2 <= base <= 16,
            limit < 0x10000,
            acc <= limit,
            acc == numeral_value(s@.take(i as int), base as nat),
            all_digits(s@.take(i as int), base as nat),
    {
        let ghost t = s@.take(i + 1);
        assert(t.drop_last() =~= s@.take(i as int));
        match digit_value_of(s[i], base) {
            None => {
                assert(!all_digits(s@, base as nat));
                return None;
            },
            Some(d) => {
                assert(acc * base + d < 0x110000) by (nonlinear_arith)
                    requires
                        acc < 0x10000,
                        base <= 16,
                        d < 16,
                ;
                let next = acc * base + d;
                if next > limit {
                    proof {
                        lemma_numeral_prefix_le(s@, i + 1, base as nat);
                    }
                    return None;
                }
                acc = next;
                assert forall|j: int| 0 <= j < t.len() implies (#[trigger] digit_value(t[j], base as nat)) is Some by {
                    if j < i {
                        assert(t[j] == s@.take(i as int)[j]);
                    }
                }
            },
        }
    }
    assert(s@.take(s@.len() as int) =~= s@);
    Some(acc)
}

/// Joined pieces hold a character other than the separator only where some piece does.
pub proof fn lemma_joined_excludes(parts: Seq<Seq<char>>, c: char, x: char)
    requires
        x != c,
        forall|i: int| 0 <= i < parts.len() ==> !(#[trigger] parts[i]).contains(x),
    ensures
        !joined(parts, c).contains(x),
    decreases parts.len(),
{
    if parts.len() > 1 {
        let rest = parts.skip(1);
        assert forall|i: int| 0 <= i < rest.len() implies !(#[trigger] rest[i]).contains(x) by {
            assert(rest[i] == parts[i + 1]);
        }
        lemma_joined_excludes(rest, c, x);
        let j = joined(parts, c);
        if j.contains(x) {
            let k = choose|k: int| 0 <= k < j.len() && j[k] == x;
            let a = parts[0];
            if k < a.len() {
                assert(a[k] == x);
            } else if k > a.len() {
                assert(joined(rest, c)[k - a.len() - 1] == x);
            }
        }
    } else if parts.len() == 1 {
        assert(!parts[0].contains(x));
    }
}

pub proof fn lemma_splitn_nonempty(s: Seq<char>, n: nat, c: char)
    ensures
        splitn(s, n, c).len() >= 1,
{
}

/// Appends the characters of `src` to `out`.
pub fn push_all(out: &mut Vec<char>, src: &Vec<char>)
    ensures
        final(out)@ == old(out)@ + src@,
{
    let ghost start = out@;
    for i in 0..src.len()
        invariant
            out@ == start + src@.take(i as int),
    {
        out.push(src[i]);
        assert(out@ =~= start + src@.take(i + 1));
    }
    assert(src@.take(src@.len() as int) =~= src@);
}

/// The pieces of `parts` from `start` on, joined with `c` between each two.
pub fn join_chars(parts: &Vec<Vec<char>>, start: usize, c: char) -> (r: Vec<char>)
    requires
        start <= parts@.len(),
    ensures
        r@ == joined(views(parts@).skip(start as int), c),
    decreases parts@.len() - start,
{
    let ghost rest = views(parts@).skip(start as int);
    if start == parts.len() {
        return Vec::new();
    }
    let mut out: Vec<char> = Vec::new();
    push_all(&mut out, &parts[start]);
    assert(rest[0] == parts@[start as int]@);
    if start + 1 == parts.len() {
        assert(out@ =~= parts@[start as int]@);
        return out;
    }
    out.push(c);
    let tail = join_chars(parts, start + 1, c);
    push_all(&mut out, &tail);
    assert(rest.skip(1) =~= views(parts@).skip(start + 1));
    out
}

} // verus!
