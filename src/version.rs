//! Semantic versions `major.minor.patch` with a canonical text form.

use vstd::prelude::*;

verus! {

/// A version triple, ordered by major, then minor, then patch.
#[derive(Clone, Copy, Debug, PartialEq, Eq, Structural)]
pub struct Version {
    pub major: u8,
    pub minor: u8,
    pub patch: u8,
}

/// The error of a version text that is not in the accepted grammar.
#[derive(Clone, Copy, Debug, PartialEq, Eq, Structural)]
pub enum VersionError {
    InvalidVersion,
}

/// Strict ordering: compare major, then minor, then patch.
pub open spec fn version_lt(a: Version, b: Version) -> bool {
    a.major < b.major || (a.major == b.major && (a.minor < b.minor || (a.minor == b.minor
        && a.patch < b.patch)))
}

pub open spec fn ordering_of(a: Version, b: Version) -> std::cmp::Ordering {
    if version_lt(a, b) {
        std::cmp::Ordering::Less
    } else if a == b {
        std::cmp::Ordering::Equal
    } else {
        std::cmp::Ordering::Greater
    }
}

pub open spec fn digit_char(d: nat) -> char {
    if d == 0 { '0' } else if d == 1 { '1' } else if d == 2 { '2' } else if d == 3 { '3' }
    else if d == 4 { '4' } else if d == 5 { '5' } else if d == 6 { '6' } else if d == 7 { '7' }
    else if d == 8 { '8' } else { '9' }
}

/// Decimal digits of `n`, without leading zeros.
pub open spec fn decimal(n: nat) -> Seq<char>
    decreases n,
{
    if n < 10 {
        seq![digit_char(n)]
    } else {
        decimal(n / 10).push(digit_char(n % 10))
    }
}

/// The canonical text `v<major>.<minor>.<patch>`.
pub open spec fn version_text(v: Version) -> Seq<char> {
    seq!['v'] + decimal(v.major as nat) + seq!['.'] + decimal(v.minor as nat) + seq!['.']
        + decimal(v.patch as nat)
}

pub open spec fn is_separator(c: char) -> bool {
    c == '.' || c == '_'
}

pub open spec fn is_digit(c: char) -> bool {
    '0' <= c && c <= '9'
}

/// The value of a string of decimal digits.
pub open spec fn digits_value(s: Seq<char>) -> nat
    decreases s.len(),
{
    if s.len() == 0 {
        0
    } else {
        digits_value(s.drop_last()) * 10 + ((s.last() as nat) - ('0' as nat)) as nat
    }
}

/// The text after one optional leading `+`.
pub open spec fn digit_part(s: Seq<char>) -> Seq<char> {
    if s.len() > 0 && s[0] == '+' { s.drop_first() } else { s }
}

pub open spec fn all_digits(d: Seq<char>) -> bool {
    forall|i: int| 0 <= i < d.len() ==> is_digit(#[trigger] d[i])
}

/// What `u8` text parsing yields: an optional `+`, then one or more digits
/// whose value is at most 255.
pub open spec fn u8_of(s: Seq<char>) -> Option<u8> {
    let d = digit_part(s);
    if d.len() > 0 && all_digits(d) && digits_value(d) <= 255 {
        Some(digits_value(d) as u8)
    } else {
        None
    }
}

/// The end of the component that starts at `start`: the next separator, or
/// the end of the text.
pub open spec fn component_end(t: Seq<char>, start: int) -> int
    decreases t.len() - start,
{
    if start >= t.len() {
        t.len() as int
    } else if is_separator(t[start]) {
        start
    } else {
        component_end(t, start + 1)
    }
}

/// The text without one leading `v`, if any.
pub open spec fn without_v(s: Seq<char>) -> Seq<char> {
    if s.len() > 0 && s[0] == 'v' { s.drop_first() } else { s }
}

/// The version that `s` denotes: its first three components, each a `u8`.
pub open spec fn parse_spec(s: Seq<char>) -> Option<Version> {
    let t = without_v(s);
    let e0 = component_end(t, 0);
    let e1 = component_end(t, e0 + 1);
    let e2 = component_end(t, e1 + 1);
    if e0 < t.len() && e1 < t.len() {
        match (u8_of(t.subrange(0, e0)), u8_of(t.subrange(e0 + 1, e1)), u8_of(t.subrange(e1 + 1, e2))) {
            (Some(a), Some(b), Some(c)) => Some(Version { major: a, minor: b, patch: c }),
            _ => None,
        }
    } else {
        None
    }
}


proof fn lemma_digits_value_grows(d: Seq<char>, n: int)
    requires
        0 <= n <= d.len(),
        forall|i: int| 0 <= i < d.len() ==> is_digit(#[trigger] d[i]),
    ensures
        digits_value(d) >= digits_value(d.subrange(0, n)),
    decreases d.len(),
{
    if n < d.len() {
        lemma_digits_value_grows(d.drop_last(), n);
        assert(d.drop_last().subrange(0, n) =~= d.subrange(0, n));
    } else {
        assert(d.subrange(0, n) =~= d);
    }
}

/// Index of the separator that ends the component starting at `start`.
fn scan_component(t: &str, start: usize) -> (e: usize)
    requires
        start <= t@.len(),
    ensures
        e as int == component_end(t@, start as int),
        start <= e <= t@.len(),
{
    let len = t.unicode_len();
    let mut i: usize = start;
    while i < len && !(t.get_char(i) == '.' || t.get_char(i) == '_')
        invariant
            start <= i <= len,
            len == t@.len(),
            component_end(t@, start as int) == component_end(t@, i as int),
        decreases len - i,
    {
        i = i + 1;
    }
    proof { e_is_end(t@, i as int); }
    i
}

proof fn e_is_end(t: Seq<char>, i: int)
    requires
        0 <= i <= t.len(),
        i == t.len() || is_separator(t[i]),
    ensures
        component_end(t, i) == i,
{
}

/// Reads `t[start..end]` as a `u8` the way `u8` text parsing does.
fn parse_u8(t: &str, start: usize, end: usize) -> (r: Option<u8>)
    requires
        start <= end <= t@.len(),
    ensures
        r == u8_of(t@.subrange(start as int, end as int)),
{
    let ghost sub = t@.subrange(start as int, end as int);
    let mut i: usize = start;
    if i < end && t.get_char(i) == '+' {
        i = i + 1;
    }
    let ghost s0 = i as int;
    let ghost d = t@.subrange(s0, end as int);
    assert(d =~= digit_part(sub));
    if i == end {
        return None;
    }
    let mut val: u32 = 0;
    while i < end
        invariant
            start <= s0 <= i <= end <= t@.len(),
            d == t@.subrange(s0, end as int),
            sub == t@.subrange(start as int, end as int),
            d == digit_part(sub),
            val as nat == digits_value(t@.subrange(s0, i as int)),
            val <= 255,
            forall|j: int| s0 <= j < i ==> is_digit(#[trigger] t@[j]),
        decreases end - i,
    {
        let c = t.get_char(i);
        if !('0' <= c && c <= '9') {
            assert(d[i - s0] == c);
            assert(!is_digit(d[i - s0]));
            assert(!all_digits(d));
            return None;
        }
        let ghost next = t@.subrange(s0, i + 1);
        assert(next.drop_last() =~= t@.subrange(s0, i as int));
        assert(next.last() == c);
        val = val * 10 + (c as u32 - '0' as u32);
        i = i + 1;
        assert(val as nat == digits_value(next));
        if val > 255 {
            proof {
                if all_digits(d) {
                    lemma_digits_value_grows(d, i - s0);
                    assert(d.subrange(0, i - s0) =~= t@.subrange(s0, i as int));
                    assert(digits_value(d) > 255);
                }
            }
            return None;
        }
    }
    assert(d =~= t@.subrange(s0, i as int));
    assert(all_digits(d)) by {
        assert(forall|k: int| 0 <= k < d.len() ==> d[k] == t@[s0 + k]);
    }
    Some(val as u8)
}

fn digit_str(d: u8) -> (r: &'static str)
    requires
        d < 10,
    ensures
        r@ == seq![digit_char(d as nat)],
{
    proof {
        reveal_strlit("0");
        reveal_strlit("1");
        reveal_strlit("2");
        reveal_strlit("3");
        reveal_strlit("4");
        reveal_strlit("5");
        reveal_strlit("6");
        reveal_strlit("7");
        reveal_strlit("8");
        reveal_strlit("9");
    }
    if d == 0 { "0" } else if d == 1 { "1" } else if d == 2 { "2" } else if d == 3 { "3" }
    else if d == 4 { "4" } else if d == 5 { "5" } else if d == 6 { "6" } else if d == 7 { "7" }
    else if d == 8 { "8" } else { "9" }
}

/// Appends the decimal digits of `n` to `s`.
fn append_decimal(s: &mut String, n: u8)
    ensures
        final(s)@ == old(s)@ + decimal(n as nat),
{
    reveal_with_fuel(decimal, 3);
    if n >= 100 {
        s.append(digit_str(n / 100));
    }
    if n >= 10 {
        s.append(digit_str((n / 10) % 10));
    }
    s.append(digit_str(n % 10));
    proof {
        if n >= 100 {
            assert(decimal(n as nat) =~= seq![digit_char((n / 100) as nat), digit_char(((n / 10) % 10) as nat), digit_char((n % 10) as nat)]);
        } else if n >= 10 {
            assert(decimal(n as nat) =~= seq![digit_char((n / 10) as nat), digit_char((n % 10) as nat)]);
        }
    }
    assert(final(s)@ =~= old(s)@ + decimal(n as nat));
}

impl Version {
    /// Parses `[v]<major>(.|_)<minor>(.|_)<patch>[(.|_)...]`; components
    /// after the third are ignored.
    pub fn from_str(s: &str) -> (r: Result<Version, VersionError>)
        ensures
            r == (match parse_spec(s@) {
                Some(v) => Ok(v),
                None => Err(VersionError::InvalidVersion),
            }),
    {
        let len = s.unicode_len();
        let t = if len > 0 && s.get_char(0) == 'v' {
            s.substring_char(1, len)
        } else {
            s
        };
        proof {
            assert(t@ =~= without_v(s@));
        }
        let n = t.unicode_len();
        let e0 = scan_component(t, 0);
        if e0 == n {
            return Err(VersionError::InvalidVersion);
        }
        let e1 = scan_component(t, e0 + 1);
        if e1 == n {
            return Err(VersionError::InvalidVersion);
        }
        let e2 = scan_component(t, e1 + 1);
        let major = parse_u8(t, 0, e0);
        let minor = parse_u8(t, e0 + 1, e1);
        let patch = parse_u8(t, e1 + 1, e2);
        match (major, minor, patch) {
            (Some(a), Some(b), Some(c)) => Ok(Version { major: a, minor: b, patch: c }),
            _ => Err(VersionError::InvalidVersion),
        }
    }

    /// The canonical text `v<major>.<minor>.<patch>`.
    pub fn to_string(&self) -> (r: String)
        ensures
            r@ == version_text(*self),
    {
        proof {
            reveal_strlit("v");
            reveal_strlit(".");
        }
        let mut s = String::from_str("v");
        append_decimal(&mut s, self.major);
        s.append(".");
        append_decimal(&mut s, self.minor);
        s.append(".");
        append_decimal(&mut s, self.patch);
        assert(s@ =~= version_text(*self));
        s
    }

    /// Compares major, then minor, then patch.
    pub fn cmp(&self, other: &Version) -> (r: std::cmp::Ordering)
        ensures
            r == ordering_of(*self, *other),
    {
        if self.major != other.major {
            if self.major < other.major { std::cmp::Ordering::Less } else { std::cmp::Ordering::Greater }
        } else if self.minor != other.minor {
            if self.minor < other.minor { std::cmp::Ordering::Less } else { std::cmp::Ordering::Greater }
        } else if self.patch != other.patch {
            if self.patch < other.patch { std::cmp::Ordering::Less } else { std::cmp::Ordering::Greater }
        } else {
            std::cmp::Ordering::Equal
        }
    }
}

/// The order on valid version texts is a strict total order: of `a < b`,
/// `a == b` and `b < a` exactly one holds, and `<` is transitive.
pub proof fn lemma_version_order_total(a: Seq<char>, b: Seq<char>, c: Seq<char>)
    requires
        parse_spec(a) is Some,
        parse_spec(b) is Some,
        parse_spec(c) is Some,
    ensures
        ({
            let (x, y, z) = (parse_spec(a).unwrap(), parse_spec(b).unwrap(), parse_spec(c).unwrap());
            &&& version_lt(x, y) || x == y || version_lt(y, x)
            &&& !(version_lt(x, y) && x == y)
            &&& !(version_lt(x, y) && version_lt(y, x))
            &&& !(x == y && version_lt(y, x))
            &&& version_lt(x, y) && version_lt(y, z) ==> version_lt(x, z)
        }),
{
}

proof fn lemma_digit_char(x: nat)
    requires
        x < 10,
    ensures
        is_digit(digit_char(x)),
        (digit_char(x) as nat) - ('0' as nat) == x,
{
}

proof fn lemma_decimal(n: nat)
    ensures
        decimal(n).len() >= 1,
        all_digits(decimal(n)),
        digits_value(decimal(n)) == n,
        digit_part(decimal(n)) == decimal(n),
        forall|i: int| 0 <= i < decimal(n).len() ==> !is_separator(#[trigger] decimal(n)[i]),
    decreases n,
{
    let d = decimal(n);
    lemma_digit_char(n % 10);
    if n < 10 {
        assert(d.drop_last() =~= Seq::<char>::empty());
        assert(n % 10 == n);
        assert(digits_value(d) == digits_value(d.drop_last()) * 10 + ((d.last() as nat) - ('0' as nat)) as nat);
    } else {
        lemma_decimal(n / 10);
        assert(d.drop_last() =~= decimal(n / 10));
        assert(d.last() == digit_char(n % 10));
        assert(digits_value(d) == digits_value(d.drop_last()) * 10 + ((d.last() as nat) - ('0' as nat)) as nat);
        assert((n / 10) * 10 + n % 10 == n);
        assert(forall|i: int| 0 <= i < d.len() - 1 ==> d[i] == decimal(n / 10)[i]);
    }
}

proof fn lemma_component_end(t: Seq<char>, start: int, e: int)
    requires
        0 <= start <= e <= t.len(),
        forall|j: int| start <= j < e ==> !is_separator(#[trigger] t[j]),
        e == t.len() || is_separator(t[e]),
    ensures
        component_end(t, start) == e,
    decreases e - start,
{
    if start < e {
        lemma_component_end(t, start + 1, e);
    }
}

/// Parsing the canonical text of a version gives that version back, so the
/// canonical text survives a parse and a second rendering unchanged.
pub proof fn lemma_parse_canonical(v: Version)
    ensures
        parse_spec(version_text(v)) == Some(v),
        version_text(parse_spec(version_text(v)).unwrap()) == version_text(v),
{
    let a = decimal(v.major as nat);
    let b = decimal(v.minor as nat);
    let c = decimal(v.patch as nat);
    lemma_decimal(v.major as nat);
    lemma_decimal(v.minor as nat);
    lemma_decimal(v.patch as nat);
    let t = a + seq!['.'] + b + seq!['.'] + c;
    assert(without_v(version_text(v)) =~= t);
    let e0 = a.len() as int;
    let e1 = e0 + 1 + b.len();
    assert(forall|j: int| 0 <= j < e0 ==> t[j] == a[j]);
    lemma_component_end(t, 0, e0);
    assert(forall|j: int| e0 + 1 <= j < e1 ==> t[j] == b[j - e0 - 1]);
    lemma_component_end(t, e0 + 1, e1);
    assert(forall|j: int| e1 + 1 <= j < t.len() ==> t[j] == c[j - e1 - 1]);
    lemma_component_end(t, e1 + 1, t.len() as int);
    assert(t.subrange(0, e0) =~= a);
    assert(t.subrange(e0 + 1, e1) =~= b);
    assert(t.subrange(e1 + 1, t.len() as int) =~= c);
}

} // verus!
