use vstd::prelude::*;

verus! {

pub const CR: u8 = 13;

pub const LF: u8 = 10;

pub const SP: u8 = 32;

pub const COLON: u8 = 58;

/// Index of the first CRLF pair at or after `from`; the sequence length when
/// there is none.
pub open spec fn find_crlf_at(s: Seq<u8>, from: int) -> int
    decreases s.len() - from when 0 <= from <= s.len()
{
    if from + 2 > s.len() {
        s.len() as int
    } else if s[from] == CR && s[from + 1] == LF {
        from
    } else {
        find_crlf_at(s, from + 1)
    }
}

/// Index of the first occurrence of `sep` at or after `from`; the sequence
/// length when there is none.
pub open spec fn find_byte_at(s: Seq<u8>, sep: u8, from: int) -> int
    decreases s.len() - from when 0 <= from <= s.len()
{
    if from >= s.len() {
        s.len() as int
    } else if s[from] == sep {
        from
    } else {
        find_byte_at(s, sep, from + 1)
    }
}

pub proof fn lemma_find_crlf_at(s: Seq<u8>, from: int)
    requires
        0 <= from <= s.len(),
    ensures
        from <= find_crlf_at(s, from) <= s.len(),
        find_crlf_at(s, from) < s.len() ==> {
            let e = find_crlf_at(s, from);
            e + 2 <= s.len() && s[e] == CR && s[e + 1] == LF
        },
    decreases s.len() - from,
{
    if from + 2 > s.len() {
    } else if s[from] == CR && s[from + 1] == LF {
    } else {
        lemma_find_crlf_at(s, from + 1);
    }
}

pub proof fn lemma_find_byte_at(s: Seq<u8>, sep: u8, from: int)
    requires
        0 <= from <= s.len(),
    ensures
        from <= find_byte_at(s, sep, from) <= s.len(),
        find_byte_at(s, sep, from) < s.len() ==> s[find_byte_at(s, sep, from)] == sep,
    decreases s.len() - from,
{
    if from >= s.len() {
    } else if s[from] == sep {
    } else {
        lemma_find_byte_at(s, sep, from + 1);
    }
}

pub fn find_crlf(v: &Vec<u8>, from: usize) -> (r: usize)
    requires
        from <= v@.len(),
    ensures
        r == find_crlf_at(v@, from as int),
{
    let n: usize = v.len();
    let mut j: usize = from;
    while n - j >= 2
        invariant
            from <= j <= n,
            n == v@.len(),
            find_crlf_at(v@, from as int) == find_crlf_at(v@, j as int),
        decreases n - j,
    {
        if v[j] == CR && v[j + 1] == LF {
            return j;
        }
        j = j + 1;
    }
    n
}

pub fn find_byte(v: &Vec<u8>, sep: u8, from: usize) -> (r: usize)
    requires
        from <= v@.len(),
    ensures
        r == find_byte_at(v@, sep, from as int),
{
    let n: usize = v.len();
    let mut j: usize = from;
    while j < n
        invariant
            from <= j <= n,
            n == v@.len(),
            find_byte_at(v@, sep, from as int) == find_byte_at(v@, sep, j as int),
        decreases n - j,
    {
        if v[j] == sep {
            return j;
        }
        j = j + 1;
    }
    n
}

/// A fresh vector holding the bytes `[a, b)` of `v`.
pub fn copy_range(v: &Vec<u8>, a: usize, b: usize) -> (r: Vec<u8>)
    requires
        a <= b,
        b <= v@.len(),
    ensures
        r@ == v@.subrange(a as int, b as int),
{
    let mut r: Vec<u8> = Vec::new();
    let mut j: usize = a;
    while j < b
        invariant
            a <= j <= b,
            b <= v@.len(),
            r@ == v@.subrange(a as int, j as int),
        decreases b - j,
    {
        r.push(v[j]);
        proof {
            assert(r@ =~= v@.subrange(a as int, j + 1 as int));
        }
        j = j + 1;
    }
    r
}

pub fn bytes_eq(a: &Vec<u8>, b: &Vec<u8>) -> (r: bool)
    ensures
        r == (a@ == b@),
{
    let n: usize = a.len();
    if n != b.len() {
        assert(a@ != b@);
        return false;
    }
    let mut j: usize = 0;
    while j < n
        invariant
            j <= n,
            n == a@.len(),
            n == b@.len(),
            forall|k: int| 0 <= k < j ==> a@[k] == b@[k],
        decreases n - j,
    {
        if a[j] != b[j] {
            assert(a@ != b@);
            return false;
        }
        j = j + 1;
    }
    proof {
        assert(a@ =~= b@);
    }
    true
}

/// UTF-8 continuation byte.
pub open spec fn is_cont(b: u8) -> bool {
    0x80 <= b <= 0xBF
}

/// The bytes of `s` from index `i` on form a sequence of well-formed UTF-8
/// encoded scalar values (shortest form, no surrogates, at most U+10FFFF).
pub open spec fn utf8_ok_from(s: Seq<u8>, i: int) -> bool
    decreases s.len() - i when 0 <= i <= s.len()
{
    if i >= s.len() {
        true
    } else {
        let b = s[i];
        if b < 0x80 {
            utf8_ok_from(s, i + 1)
        } else if b < 0xC2 {
            false
        } else if b < 0xE0 {
            &&& i + 2 <= s.len()
            &&& is_cont(s[i + 1])
            &&& utf8_ok_from(s, i + 2)
        } else if b < 0xF0 {
            &&& i + 3 <= s.len()
            &&& is_cont(s[i + 1])
            &&& is_cont(s[i + 2])
            &&& (b != 0xE0 ==> true)
            &&& (b == 0xE0 ==> s[i + 1] >= 0xA0)
            &&& (b == 0xED ==> s[i + 1] <= 0x9F)
            &&& utf8_ok_from(s, i + 3)
        } else if b < 0xF5 {
            &&& i + 4 <= s.len()
            &&& is_cont(s[i + 1])
            &&& is_cont(s[i + 2])
            &&& is_cont(s[i + 3])
            &&& (b == 0xF0 ==> s[i + 1] >= 0x90)
            &&& (b == 0xF4 ==> s[i + 1] <= 0x8F)
            &&& utf8_ok_from(s, i + 4)
        } else {
            false
        }
    }
}

pub open spec fn utf8_ok(s: Seq<u8>) -> bool {
    utf8_ok_from(s, 0)
}

fn cont(b: u8) -> (r: bool)
    ensures
        r == is_cont(b),
{
    0x80 <= b && b <= 0xBF
}

/// Whether `v` as a whole is well-formed UTF-8.
pub fn is_valid_utf8(v: &Vec<u8>) -> (r: bool)
    ensures
        r == utf8_ok(v@),
{
    let n: usize = v.len();
    let mut i: usize = 0;
    while i < n
        invariant
            i <= n,
            n == v@.len(),
            utf8_ok(v@) == utf8_ok_from(v@, i as int),
        decreases n - i,
    {
        let b: u8 = v[i];
        if b < 0x80 {
            i = i + 1;
        } else if b < 0xC2 {
            return false;
        } else if b < 0xE0 {
            if n - i < 2 || !cont(v[i + 1]) {
                return false;
            }
            i = i + 2;
        } else if b < 0xF0 {
            if n - i < 3 || !cont(v[i + 1]) || !cont(v[i + 2]) {
                return false;
            }
            if b == 0xE0 && v[i + 1] < 0xA0 {
                return false;
            }
            if b == 0xED && v[i + 1] > 0x9F {
                return false;
            }
            i = i + 3;
        } else if b < 0xF5 {
            if n - i < 4 || !cont(v[i + 1]) || !cont(v[i + 2]) || !cont(v[i + 3]) {
                return false;
            }
            if b == 0xF0 && v[i + 1] < 0x90 {
                return false;
            }
            if b == 0xF4 && v[i + 1] > 0x8F {
                return false;
            }
            i = i + 4;
        } else {
            return false;
        }
    }
    true
}

} // verus!
