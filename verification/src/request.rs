use vstd::prelude::*;

use crate::scan::{copy_range, bytes_eq, is_valid_utf8, utf8_ok};

verus! {

/// Connection-fatal conditions; none is recovered from, the affected
/// connection simply ends.
#[derive(Clone, Copy, Debug, PartialEq, Eq, Structural)]
pub enum HttpError {
    /// Fewer than three space-separated tokens on the first line.
    MalformedRequestLine,
    /// Bytes that are not well-formed UTF-8 where text is expected.
    InvalidHeaderEncoding,
    /// A `Content-Length` value that is not a plain decimal number fitting
    /// the machine's byte-count range.
    InvalidContentLength,
    /// The supplementary body read did not yield the declared remaining
    /// length.
    IncompleteBody,
}

/// The three tokens of an HTTP/1.1 request line.
#[derive(Debug)]
pub struct RequestLine {
    pub method: Vec<u8>,
    pub target: Vec<u8>,
    pub version: Vec<u8>,
}

pub struct RequestLineModel {
    pub method: Seq<u8>,
    pub target: Seq<u8>,
    pub version: Seq<u8>,
}

impl View for RequestLine {
    type V = RequestLineModel;

    open spec fn view(&self) -> RequestLineModel {
        RequestLineModel { method: self.method@, target: self.target@, version: self.version@ }
    }
}

impl RequestLine {
    /// An empty request line, the state before any parse.
    pub fn new() -> (r: RequestLine)
        ensures
            r@.method == Seq::<u8>::empty(),
            r@.target == Seq::<u8>::empty(),
            r@.version == Seq::<u8>::empty(),
    {
        RequestLine { method: Vec::new(), target: Vec::new(), version: Vec::new() }
    }

    /// A request line from its three tokens.
    pub fn new_full(method: Vec<u8>, target: Vec<u8>, version: Vec<u8>) -> (r: RequestLine)
        ensures
            r@.method == method@,
            r@.target == target@,
            r@.version == version@,
    {
        RequestLine { method, target, version }
    }
}

/// The abstract map a header entry list denotes: a later entry for the same
/// name overwrites an earlier one.
pub open spec fn map_of(es: Seq<(Vec<u8>, Vec<u8>)>) -> Map<Seq<u8>, Seq<u8>>
    decreases es.len(),
{
    if es.len() == 0 {
        Map::empty()
    } else {
        map_of(es.drop_last()).insert(es.last().0@, es.last().1@)
    }
}

/// Mapping from header name to header value; keys are unique in the abstract
/// map, and a later duplicate header line overwrites an earlier one.
#[derive(Debug)]
pub struct HeaderMap {
    pub entries: Vec<(Vec<u8>, Vec<u8>)>,
}

impl View for HeaderMap {
    type V = Map<Seq<u8>, Seq<u8>>;

    open spec fn view(&self) -> Map<Seq<u8>, Seq<u8>> {
        map_of(self.entries@)
    }
}

/// If no entry at or after `i` binds `k`, the entries before `i` already
/// decide whether `k` is bound and to what.
proof fn lemma_map_of_take(es: Seq<(Vec<u8>, Vec<u8>)>, i: int, k: Seq<u8>)
    requires
        0 <= i <= es.len(),
        forall|j: int| i <= j < es.len() ==> #[trigger] es[j].0@ != k,
    ensures
        map_of(es).contains_key(k) == map_of(es.take(i)).contains_key(k),
        map_of(es).contains_key(k) ==> map_of(es)[k] == map_of(es.take(i))[k],
    decreases es.len() - i,
{
    if i == es.len() {
        assert(es.take(i) =~= es);
    } else {
        lemma_map_of_take(es, i + 1, k);
        let t = es.take(i + 1);
        assert(t.drop_last() =~= es.take(i));
        assert(t.last() == es[i]);
    }
}

impl HeaderMap {
    pub fn new() -> (r: HeaderMap)
        ensures
            r@ == Map::<Seq<u8>, Seq<u8>>::empty(),
    {
        HeaderMap { entries: Vec::new() }
    }

    /// Bind `name` to `value`; a later binding overwrites an earlier one.
    pub fn insert(&mut self, name: Vec<u8>, value: Vec<u8>)
        ensures
            final(self)@ == old(self)@.insert(name@, value@),
    {
        self.entries.push((name, value));
        proof {
            assert(self.entries@.drop_last() =~= old(self).entries@);
        }
    }

    /// Look the value bound to `name` up; the copy of the latest binding.
    pub fn get(&self, name: &Vec<u8>) -> (r: Option<Vec<u8>>)
        ensures
            match r {
                Some(v) => self@.contains_key(name@) && v@ == self@[name@],
                None => !self@.contains_key(name@),
            },
    {
        let n: usize = self.entries.len();
        let mut i: usize = n;
        while i > 0
            invariant
                i <= n,
                n == self.entries@.len(),
                forall|j: int| i <= j < n ==> #[trigger] self.entries@[j].0@ != name@,
            decreases i,
        {
            let hit: bool = bytes_eq(&self.entries[i - 1].0, name);
            if hit {
                let v: Vec<u8> = copy_range(&self.entries[i - 1].1, 0, self.entries[i - 1].1.len());
                proof {
                    lemma_map_of_take(self.entries@, i as int, name@);
                    let t = self.entries@.take(i as int);
                    assert(t.last() == self.entries@[i - 1]);
                    assert(v@ =~= self.entries@[i - 1].1@);
                }
                return Some(v);
            }
            i = i - 1;
        }
        proof {
            lemma_map_of_take(self.entries@, 0, name@);
            assert(self.entries@.take(0) =~= Seq::<(Vec<u8>, Vec<u8>)>::empty());
        }
        None
    }
}

/// Mutable accumulator for the request currently being assembled on a
/// connection; a fresh empty value starts every request cycle.
#[derive(Debug)]
pub struct PendingRequest {
    pub line: RequestLine,
    pub headers: HeaderMap,
    pub declared_body_length: usize,
    pub body_so_far: Vec<u8>,
}

pub struct PendingModel {
    pub line: RequestLineModel,
    pub headers: Map<Seq<u8>, Seq<u8>>,
    pub declared_body_length: int,
    pub body_so_far: Seq<u8>,
}

impl View for PendingRequest {
    type V = PendingModel;

    open spec fn view(&self) -> PendingModel {
        PendingModel {
            line: self.line@,
            headers: self.headers@,
            declared_body_length: self.declared_body_length as int,
            body_so_far: self.body_so_far@,
        }
    }
}

impl PendingRequest {
    /// The empty accumulator.
    pub fn new() -> (r: PendingRequest)
        ensures
            r@.line.method == Seq::<u8>::empty(),
            r@.line.target == Seq::<u8>::empty(),
            r@.line.version == Seq::<u8>::empty(),
            r@.headers == Map::<Seq<u8>, Seq<u8>>::empty(),
            r@.declared_body_length == 0,
            r@.body_so_far == Seq::<u8>::empty(),
    {
        PendingRequest {
            line: RequestLine::new(),
            headers: HeaderMap::new(),
            declared_body_length: 0,
            body_so_far: Vec::new(),
        }
    }

    /// Append the bytes of one supplementary transport read to the body.
    ///
    /// The read must deliver exactly the missing byte count, and the bytes
    /// must decode as text; otherwise the body is left unchanged and the
    /// returned condition ends the connection.
    pub fn complete_body(&mut self, extra: &Vec<u8>) -> (r: Result<(), HttpError>)
        requires
            old(self)@.body_so_far.len() <= old(self)@.declared_body_length,
        ensures
            final(self)@.line == old(self)@.line,
            final(self)@.headers == old(self)@.headers,
            final(self)@.declared_body_length == old(self)@.declared_body_length,
            r is Ok <==> (extra@.len() == old(self)@.declared_body_length
                - old(self)@.body_so_far.len() && utf8_ok(extra@)),
            match r {
                Ok(u) => final(self)@.body_so_far == old(self)@.body_so_far + extra@
                    && final(self)@.body_so_far.len() == old(self)@.declared_body_length,
                Err(e) => final(self)@.body_so_far == old(self)@.body_so_far && (e
                    == HttpError::IncompleteBody <==> extra@.len() != old(
                    self,
                )@.declared_body_length - old(self)@.body_so_far.len()) && (e
                    == HttpError::InvalidHeaderEncoding <==> (extra@.len() == old(
                    self,
                )@.declared_body_length - old(self)@.body_so_far.len() && !utf8_ok(extra@))),
            },
    {
        let missing: usize = self.declared_body_length - self.body_so_far.len();
        if extra.len() != missing {
            return Err(HttpError::IncompleteBody);
        }
        if !is_valid_utf8(extra) {
            return Err(HttpError::InvalidHeaderEncoding);
        }
        let n: usize = extra.len();
        let mut j: usize = 0;
        while j < n
            invariant
                j <= n,
                n == extra@.len(),
                self.line == old(self).line,
                self.headers == old(self).headers,
                self.declared_body_length == old(self).declared_body_length,
                self.body_so_far@ == old(self).body_so_far@ + extra@.take(j as int),
            decreases n - j,
        {
            self.body_so_far.push(extra[j]);
            proof {
                assert(self.body_so_far@ =~= old(self).body_so_far@ + extra@.take(j + 1 as int));
            }
            j = j + 1;
        }
        proof {
            assert(extra@.take(n as int) =~= extra@);
        }
        Ok(())
    }
}

/// Decimal digit.
pub open spec fn is_digit(b: u8) -> bool {
    48 <= b <= 57
}

pub open spec fn all_digits(s: Seq<u8>) -> bool {
    forall|i: int| 0 <= i < s.len() ==> is_digit(#[trigger] s[i])
}

/// The number a digit string denotes, most significant digit first.
pub open spec fn digits_val(s: Seq<u8>) -> int
    decreases s.len(),
{
    if s.len() == 0 {
        0
    } else {
        digits_val(s.drop_last()) * 10 + s.last() - 48
    }
}

pub proof fn lemma_digits_val_nonneg(s: Seq<u8>)
    requires
        all_digits(s),
    ensures
        digits_val(s) >= 0,
    decreases s.len(),
{
    if s.len() > 0 {
        assert(all_digits(s.drop_last()));
        lemma_digits_val_nonneg(s.drop_last());
    }
}

proof fn lemma_digits_val_mono(s: Seq<u8>, i: int)
    requires
        all_digits(s),
        0 <= i <= s.len(),
    ensures
        digits_val(s.take(i)) <= digits_val(s),
    decreases s.len() - i,
{
    if i == s.len() {
        assert(s.take(i) =~= s);
    } else {
        lemma_digits_val_mono(s, i + 1);
        let t = s.take(i + 1);
        assert(t.drop_last() =~= s.take(i));
        assert(all_digits(s.take(i)));
        lemma_digits_val_nonneg(s.take(i));
        assert(digits_val(t) == digits_val(s.take(i)) * 10 + t.last() - 48);
        assert(digits_val(s.take(i)) * 10 >= digits_val(s.take(i))) by (nonlinear_arith)
            requires
                digits_val(s.take(i)) >= 0,
        ;
    }
}

/// What a `Content-Length` header value means: an optional leading plus,
/// then at least one decimal digit, denoting a number that fits the
/// machine's byte-count range; anything else is refused.
pub open spec fn cl_digits(v: Seq<u8>) -> Seq<u8> {
    if v.len() > 0 && v[0] == 43 {
        v.skip(1)
    } else {
        v
    }
}

pub open spec fn spec_parse_content_length(v: Seq<u8>) -> Option<int> {
    let t = cl_digits(v);
    if t.len() > 0 && all_digits(t) && digits_val(t) <= usize::MAX {
        Some(digits_val(t))
    } else {
        None
    }
}

/// Read a `Content-Length` header value as a byte count.
pub fn parse_content_length(v: &Vec<u8>) -> (r: Option<usize>)
    ensures
        match r {
            Some(n) => spec_parse_content_length(v@) == Some(n as int),
            None => spec_parse_content_length(v@) is None,
        },
{
    let n: usize = v.len();
    let start: usize = if n > 0 && v[0] == 43 {
        1
    } else {
        0
    };
    let ghost t = cl_digits(v@);
    assert(t =~= v@.subrange(start as int, n as int));
    if n == start {
        return None;
    }
    let mut acc: usize = 0;
    let mut j: usize = start;
    while j < n
        invariant
            start <= j <= n,
            n == v@.len(),
            t == cl_digits(v@),
            t =~= v@.subrange(start as int, n as int),
            all_digits(t.take(j - start)),
            acc == digits_val(t.take(j - start)),
        decreases n - j,
    {
        let b: u8 = v[j];
        if b < 48 || b > 57 {
            proof {
                assert(0 <= j - start < t.len());
                assert(t[j - start] == b);
                assert(!is_digit(b));
                assert(!all_digits(t));
            }
            return None;
        }
        let d: usize = (b - 48) as usize;
        proof {
            let m = j - start;
            assert(t.take(m + 1).drop_last() =~= t.take(m));
            assert(t.take(m + 1).last() == t[m]);
            assert(t[m] == b);
            assert(all_digits(t.take(m + 1)));
            assert(digits_val(t.take(m + 1)) == acc * 10 + d);
        }
        if acc > (usize::MAX - d) / 10 {
            proof {
                let m = j - start;
                assert(acc * 10 + d > usize::MAX) by (nonlinear_arith)
                    requires
                        acc > (usize::MAX - d) / 10,
                        0 <= d <= 9,
                ;
                if all_digits(t) {
                    lemma_digits_val_mono(t, m + 1);
                    assert(digits_val(t) > usize::MAX);
                }
            }
            return None;
        }
        proof {
            assert(acc * 10 + d <= usize::MAX) by (nonlinear_arith)
                requires
                    acc <= (usize::MAX - d) / 10,
                    0 <= d <= 9,
            ;
        }
        acc = acc * 10 + d;
        j = j + 1;
    }
    proof {
        assert(t.take(n - start) =~= t);
    }
    Some(acc)
}

} // verus!
