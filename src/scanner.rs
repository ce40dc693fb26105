use vstd::prelude::*;

verus! {

/// True when the window of `s` that starts at `i` equals `p`.
pub open spec fn window_matches(s: Seq<u8>, p: Seq<u8>, i: int) -> bool {
    s.subrange(i, i + p.len() as int) == p
}

/// Number of starting positions below `n` whose window matches `p`.
pub open spec fn count_windows(s: Seq<u8>, p: Seq<u8>, n: int) -> nat
    decreases n,
{
    if n <= 0 {
        0
    } else {
        count_windows(s, p, n - 1) + if window_matches(s, p, n - 1) {
            1nat
        } else {
            0nat
        }
    }
}

/// Number of (possibly overlapping) occurrences of `p` in `s`.
/// An empty pattern occurs nowhere, and a buffer shorter than the pattern holds none.
pub open spec fn pattern_count(s: Seq<u8>, p: Seq<u8>) -> nat {
    if p.len() == 0 || s.len() < p.len() {
        0
    } else {
        count_windows(s, p, s.len() - p.len() + 1)
    }
}

/// Number of the first `n` bytes of `s` that belong to `class`.
pub open spec fn count_class_prefix(s: Seq<u8>, class: Seq<u8>, n: int) -> nat
    decreases n,
{
    if n <= 0 {
        0
    } else {
        count_class_prefix(s, class, n - 1) + if class.contains(s[n - 1]) {
            1nat
        } else {
            0nat
        }
    }
}

/// Number of bytes of `s` that belong to `class`.
pub open spec fn class_count(s: Seq<u8>, class: Seq<u8>) -> nat {
    count_class_prefix(s, class, s.len() as int)
}

pub proof fn lemma_count_windows_bound(s: Seq<u8>, p: Seq<u8>, n: int)
    ensures
        count_windows(s, p, n) <= if n < 0 { 0 } else { n },
    decreases n,
{
    if n > 0 {
        lemma_count_windows_bound(s, p, n - 1);
    }
}

pub proof fn lemma_count_class_bound(s: Seq<u8>, class: Seq<u8>, n: int)
    ensures
        count_class_prefix(s, class, n) <= if n < 0 { 0 } else { n },
    decreases n,
{
    if n > 0 {
        lemma_count_class_bound(s, class, n - 1);
    }
}

/// A match never outnumbers the bytes it is counted over.
pub proof fn lemma_pattern_count_bound(s: Seq<u8>, p: Seq<u8>)
    ensures
        pattern_count(s, p) <= s.len(),
{
    if p.len() > 0 && s.len() >= p.len() {
        lemma_count_windows_bound(s, p, s.len() - p.len() + 1);
    }
}

/// What a scan looks for in a decoded buffer.
pub enum Matcher {
    /// Every window equal to this byte string, overlapping windows included.
    Fixed(Vec<u8>),
    /// Every single byte that is one of these.
    AnyOf(Vec<u8>),
}

impl Matcher {
    /// The number of matches of this matcher in `s`.
    pub open spec fn count_spec(&self, s: Seq<u8>) -> nat {
        match self {
            Matcher::Fixed(p) => pattern_count(s, p@),
            Matcher::AnyOf(c) => class_count(s, c@),
        }
    }

    /// Counts the matches of this matcher in `buf`.
    pub fn count_in(&self, buf: &[u8]) -> (r: u64)
        ensures
            r == self.count_spec(buf@),
    {
        match self {
            Matcher::Fixed(p) => count_pattern(buf, p.as_slice()),
            Matcher::AnyOf(c) => count_class(buf, c.as_slice()),
        }
    }
}

/// The last `n` bytes of `s`, or all of it when it is shorter.
pub open spec fn last_n(s: Seq<u8>, n: nat) -> Seq<u8> {
    if s.len() <= n {
        s
    } else {
        s.subrange(s.len() - n, s.len() as int)
    }
}

/// A fixed-width window over a stream of bytes: bytes come in one at a time and,
/// once `width` of them have come, the window holds the last `width` of them.
pub struct Window {
    bytes: Vec<u8>,
    width: usize,
    seen: Ghost<Seq<u8>>,
}

impl Window {
    pub closed spec fn wf(&self) -> bool {
        self.bytes@ == last_n(self.seen@, self.width as nat)
    }

    /// Every byte pushed so far, in order.
    pub closed spec fn seen(&self) -> Seq<u8> {
        self.seen@
    }

    pub closed spec fn width_spec(&self) -> nat {
        self.width as nat
    }

    /// An empty window of `width` bytes.
    pub fn new(width: usize) -> (r: Window)
        ensures
            r.wf(),
            r.seen() == Seq::<u8>::empty(),
            r.width_spec() == width,
    {
        Window { bytes: Vec::new(), width, seen: Ghost(Seq::empty()) }
    }

    /// Pushes one byte, dropping the oldest once the window is full; says whether
    /// the window is now full.
    pub fn push(&mut self, b: u8) -> (full: bool)
        requires
            old(self).wf(),
        ensures
            final(self).wf(),
            final(self).seen() == old(self).seen().push(b),
            final(self).width_spec() == old(self).width_spec(),
            full == (final(self).seen().len() >= final(self).width_spec()),
    {
        let ghost s = self.seen@.push(b);
        if self.width == 0 {
            self.seen = Ghost(s);
            assert(self.bytes@ =~= last_n(s, 0));
            return true;
        }
        if self.bytes.len() == self.width {
            self.bytes.remove(0);
        }
        self.bytes.push(b);
        self.seen = Ghost(s);
        assert(self.bytes@ =~= last_n(s, self.width as nat));
        self.bytes.len() == self.width
    }

    /// Whether the window is full and holds exactly `pat`.
    pub fn equals(&self, pat: &[u8]) -> (r: bool)
        requires
            self.wf(),
            pat@.len() == self.width_spec(),
        ensures
            r == (self.seen().len() >= self.width_spec() && window_matches(
                self.seen(),
                pat@,
                self.seen().len() - self.width_spec(),
            )),
    {
        let w = self.width;
        if self.bytes.len() != w {
            return false;
        }
        let ghost seen = self.seen();
        assert(self.bytes@ =~= seen.subrange(seen.len() - w, seen.len() as int));
        let mut j: usize = 0;
        while j < w
            invariant
                j <= w,
                w == pat@.len(),
                self.bytes@.len() == w,
                self.bytes@ == seen.subrange(seen.len() - w, seen.len() as int),
                seen == self.seen(),
                seen.len() >= w,
                w == self.width_spec(),
                forall|k: int| 0 <= k < j ==> self.bytes@[k] == pat@[k],
            decreases w - j,
        {
            if self.bytes[j] != pat[j] {
                assert(seen.subrange(seen.len() - w, seen.len() - w + pat@.len())[j as int]
                    != pat@[j as int]);
                return false;
            }
            j = j + 1;
        }
        assert(self.bytes@ =~= pat@);
        true
    }
}

/// Windows that lie within a common prefix of two sequences match alike.
pub proof fn lemma_count_windows_common_prefix(s: Seq<u8>, t: Seq<u8>, p: Seq<u8>, n: int)
    requires
        p.len() > 0,
        n + p.len() - 1 <= s.len(),
        n + p.len() - 1 <= t.len(),
        s.take(n + p.len() - 1) == t.take(n + p.len() - 1),
    ensures
        count_windows(s, p, n) == count_windows(t, p, n),
    decreases n,
{
    if n > 0 {
        let m = n + p.len() - 1;
        let a = n - 1 + p.len() - 1;
        assert(s.take(a) =~= s.take(m).take(a));
        assert(t.take(a) =~= t.take(m).take(a));
        lemma_count_windows_common_prefix(s, t, p, n - 1);
        assert(s.subrange(n - 1, n - 1 + p.len()) =~= s.take(m).subrange(n - 1, m));
        assert(t.subrange(n - 1, n - 1 + p.len()) =~= t.take(m).subrange(n - 1, m));
    }
}

/// Appending one byte adds the window that it completes, if that one matches.
pub proof fn lemma_pattern_count_push(s: Seq<u8>, b: u8, p: Seq<u8>)
    requires
        p.len() > 0,
    ensures
        pattern_count(s.push(b), p) == pattern_count(s, p) + if s.len() + 1 >= p.len()
            && window_matches(s.push(b), p, s.len() + 1 - p.len()) {
            1nat
        } else {
            0nat
        },
{
    let t = s.push(b);
    if t.len() >= p.len() {
        let k = s.len() + 1 - p.len();
        assert(pattern_count(t, p) == count_windows(t, p, k) + if window_matches(t, p, k) {
            1nat
        } else {
            0nat
        });
        if s.len() >= p.len() {
            assert(t.take(k + p.len() - 1) =~= s.take(k + p.len() - 1));
            lemma_count_windows_common_prefix(t, s, p, k);
            assert(pattern_count(s, p) == count_windows(s, p, k));
        } else {
            assert(count_windows(t, p, 0) == 0);
        }
    }
}

/// Counts every position at which `pat` occurs in `buf`, overlapping occurrences
/// included, sliding a window of the pattern's width over the bytes.
pub fn count_pattern(buf: &[u8], pat: &[u8]) -> (r: u64)
    ensures
        r == pattern_count(buf@, pat@),
{
    let w = pat.len();
    let n = buf.len();
    if w == 0 {
        return 0;
    }
    let mut win = Window::new(w);
    let mut total: u64 = 0;
    let mut i: usize = 0;
    proof {
        assert(buf@.take(0) =~= Seq::<u8>::empty());
    }
    while i < n
        invariant
            n == buf@.len(),
            w == pat@.len(),
            w > 0,
            i <= n,
            win.wf(),
            win.width_spec() == w,
            win.seen() == buf@.take(i as int),
            total == pattern_count(buf@.take(i as int), pat@),
            total <= i,
        decreases n - i,
    {
        proof {
            assert(buf@.take(i + 1) =~= buf@.take(i as int).push(buf@[i as int]));
            lemma_pattern_count_push(buf@.take(i as int), buf@[i as int], pat@);
        }
        let full = win.push(buf[i]);
        if full && win.equals(pat) {
            total = total + 1;
        }
        i = i + 1;
    }
    proof {
        assert(buf@.take(n as int) =~= buf@);
    }
    total
}

/// Counts the bytes of `buf` that are one of the bytes of `class`.
pub fn count_class(buf: &[u8], class: &[u8]) -> (r: u64)
    ensures
        r == class_count(buf@, class@),
{
    let n = buf.len();
    let mut total: u64 = 0;
    let mut i: usize = 0;
    while i < n
        invariant
            n == buf@.len(),
            i <= n,
            total == count_class_prefix(buf@, class@, i as int),
        decreases n - i,
    {
        proof {
            lemma_count_class_bound(buf@, class@, i as int);
        }
        if contains_byte(class, buf[i]) {
            total = total + 1;
        }
        i = i + 1;
    }
    total
}

/// Whether `b` is one of the bytes of `class`.
fn contains_byte(class: &[u8], b: u8) -> (r: bool)
    ensures
        r == class@.contains(b),
{
    let mut j: usize = 0;
    while j < class.len()
        invariant
            j <= class@.len(),
            forall|k: int| 0 <= k < j ==> class@[k] != b,
        decreases class@.len() - j,
    {
        if class[j] == b {
            return true;
        }
        j = j + 1;
    }
    false
}

} // verus!
