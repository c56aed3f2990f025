//! Character-level helpers on strings.

use vstd::prelude::*;
use vstd::std_specs::iter::IteratorSpec;

verus! {

/// The characters of an optional string.
pub open spec fn opt_string_chars(o: Option<String>) -> Option<Seq<char>> {
    match o {
        Some(s) => Some(s@),
        None => None,
    }
}

/// The characters of `s`, one by one.
pub fn chars_of(s: &str) -> (v: Vec<char>)
    ensures
        v@ == s@,
{
    proof {
        broadcast use vstd::string::group_string_axioms;
    }
    let mut v: Vec<char> = Vec::new();
    for c in it: s.chars()
        invariant
            v@ == it.seq().take(it.index()),
    {
        v.push(c);
    }
    assert(v@ =~= s@);
    v
}

} // verus!

verus! {

/// Whether `a` and `b` hold the same characters.
pub fn str_eq(a: &str, b: &str) -> (r: bool)
    ensures
        r == (a@ == b@),
{
    let x = chars_of(a);
    let y = chars_of(b);
    if x.len() != y.len() {
        return false;
    }
    let mut i: usize = 0;
    while i < x.len()
        invariant
            x@ == a@,
            y@ == b@,
            x.len() == y.len(),
            i <= x.len(),
            forall|j: int| 0 <= j < i ==> x@[j] == y@[j],
        decreases x.len() - i,
    {
        if x[i] != y[i] {
            return false;
        }
        i = i + 1;
    }
    assert(x@ =~= y@);
    true
}

} // verus!

verus! {

/// Unicode white space, as `char::is_whitespace` classifies it.
pub open spec fn is_white(c: char) -> bool {
    let u = c as u32;
    (0x9 <= u && u <= 0xD) || u == 0x20 || u == 0x85 || u == 0xA0 || u == 0x1680 || (0x2000 <= u
        && u <= 0x200A) || u == 0x2028 || u == 0x2029 || u == 0x202F || u == 0x205F || u == 0x3000
}

/// `s` without its leading white space.
pub open spec fn trim_start(s: Seq<char>) -> Seq<char>
    decreases s.len(),
{
    if s.len() > 0 && is_white(s[0]) {
        trim_start(s.drop_first())
    } else {
        s
    }
}

/// `s` without its trailing white space.
pub open spec fn trim_end(s: Seq<char>) -> Seq<char>
    decreases s.len(),
{
    if s.len() > 0 && is_white(s.last()) {
        trim_end(s.drop_last())
    } else {
        s
    }
}

/// `s` without leading and trailing white space.
pub open spec fn trimmed(s: Seq<char>) -> Seq<char> {
    trim_end(trim_start(s))
}

fn is_white_char(c: char) -> (r: bool)
    ensures
        r == is_white(c),
{
    let u = c as u32;
    (0x9 <= u && u <= 0xD) || u == 0x20 || u == 0x85 || u == 0xA0 || u == 0x1680 || (0x2000 <= u
        && u <= 0x200A) || u == 0x2028 || u == 0x2029 || u == 0x202F || u == 0x205F || u == 0x3000
}

/// `s` without leading and trailing white space.
pub fn trim_whitespace(s: &str) -> (r: &str)
    ensures
        r@ == trimmed(s@),
{
    let v = chars_of(s);
    let n = v.len();
    let mut i: usize = 0;
    assert(v@.skip(0) =~= v@);
    while i < n && is_white_char(v[i])
        invariant
            v@ == s@,
            n == v.len(),
            i <= n,
            trim_start(v@) == trim_start(v@.skip(i as int)),
        decreases n - i,
    {
        assert(v@.skip(i as int).drop_first() =~= v@.skip(i + 1));
        i = i + 1;
    }
    let ghost front = v@.skip(i as int);
    assert(trim_start(front) == front);
    let mut j: usize = n;
    assert(front.take(j - i) =~= front);
    while j > i && is_white_char(v[j - 1])
        invariant
            v@ == s@,
            n == v.len(),
            i <= j <= n,
            front == v@.skip(i as int),
            trim_end(front) == trim_end(front.take(j - i)),
        decreases j,
    {
        assert(front.take(j - i).drop_last() =~= front.take(j - 1 - i));
        j = j - 1;
    }
    assert(trim_end(front.take(j - i)) == front.take(j - i));
    assert(front.take(j - i) =~= v@.subrange(i as int, j as int));
    s.substring_char(i, j)
}

/// The value of a string of decimal digits.
pub open spec fn digits_value(d: Seq<char>) -> nat
    decreases d.len(),
{
    if d.len() == 0 {
        0
    } else {
        digits_value(d.drop_last()) * 10 + ((d.last() as u32) - ('0' as u32)) as nat
    }
}

/// Whether every character of `d` is an ASCII digit.
pub open spec fn all_digits(d: Seq<char>) -> bool {
    forall|i: int| 0 <= i < d.len() ==> '0' <= #[trigger] d[i] <= '9'
}

/// What `str::parse::<usize>` gives for `s`: an optional `+` followed by at
/// least one ASCII digit, with a value that fits in `usize`.
pub open spec fn parsed_usize(s: Seq<char>) -> Option<usize> {
    let d = if s.len() > 0 && s[0] == '+' {
        s.drop_first()
    } else {
        s
    };
    if d.len() > 0 && all_digits(d) && digits_value(d) <= usize::MAX {
        Some(digits_value(d) as usize)
    } else {
        None
    }
}

proof fn lemma_digits_prefix(d: Seq<char>, k: int)
    requires
        0 <= k <= d.len(),
        all_digits(d),
    ensures
        digits_value(d.take(k)) <= digits_value(d),
    decreases d.len() - k,
{
    if k < d.len() {
        lemma_digits_prefix(d, k + 1);
        assert(d.take(k + 1).drop_last() =~= d.take(k));
        assert(d.take(k + 1).last() == d[k]);
    } else {
        assert(d.take(k) =~= d);
    }
}

/// Reads `s` as a `usize` the way `str::parse::<usize>` does.
pub fn parse_usize(s: &str) -> (r: Option<usize>)
    ensures
        r == parsed_usize(s@),
{
    let v = chars_of(s);
    let start: usize = if v.len() > 0 && v[0] == '+' { 1 } else { 0 };
    let ghost d = if s@.len() > 0 && s@[0] == '+' { s@.drop_first() } else { s@ };
    assert(d =~= v@.skip(start as int));
    if start >= v.len() {
        return None;
    }
    let mut acc: usize = 0;
    let mut i: usize = start;
    while i < v.len()
        invariant
            v@ == s@,
            start <= i <= v.len(),
            d == v@.skip(start as int),
            d == (if s@.len() > 0 && s@[0] == '+' { s@.drop_first() } else { s@ }),
            acc == digits_value(d.take(i - start)),
            all_digits(d.take(i - start)),
        decreases v.len() - i,
    {
        let c = v[i];
        let ghost k = i - start;
        assert(d[k] == c);
        assert(d.take(k + 1).drop_last() =~= d.take(k));
        assert(d.take(k + 1).last() == c);
        if c < '0' || c > '9' {
            assert(!all_digits(d));
            return None;
        }
        let digit = (c as u32 - '0' as u32) as usize;
        match acc.checked_mul(10) {
            Some(m) => match m.checked_add(digit) {
                Some(x) => { acc = x; }
                None => {
                    proof {
                        if all_digits(d) {
                            lemma_digits_prefix(d, k + 1);
                        }
                    }
                    return None;
                }
            },
            None => {
                proof {
                    if all_digits(d) {
                        lemma_digits_prefix(d, k + 1);
                    }
                }
                return None;
            }
        }
        assert(all_digits(d.take(k + 1)));
        i = i + 1;
    }
    assert(d.take(i - start) =~= d);
    Some(acc)
}

} // verus!

verus! {

/// The fields of `s` between occurrences of `c`, as `str::split` gives them:
/// there is always one more field than there are occurrences.
pub open spec fn split_on(s: Seq<char>, c: char) -> Seq<Seq<char>>
    decreases s.len(),
{
    if s.len() == 0 {
        seq![Seq::<char>::empty()]
    } else {
        let f = split_on(s.drop_last(), c);
        if s.last() == c {
            f.push(Seq::<char>::empty())
        } else {
            f.update(f.len() - 1, f.last().push(s.last()))
        }
    }
}

/// `l` without one trailing carriage return.
pub open spec fn strip_cr(l: Seq<char>) -> Seq<char> {
    if l.len() > 0 && l.last() == '\r' {
        l.drop_last()
    } else {
        l
    }
}

/// The lines of `s`, as `str::lines` gives them: split at each newline, a
/// carriage return before a newline dropped, and no line after a final
/// newline.
pub open spec fn lines(s: Seq<char>) -> Seq<Seq<char>> {
    let f = split_on(s, '\n');
    let n = f.len();
    Seq::new(
        if f[n - 1].len() == 0 { (n - 1) as nat } else { n as nat },
        |i: int| if i < n - 1 { strip_cr(f[i]) } else { f[i] },
    )
}

/// Whether `p` occurs in `s`.
pub open spec fn contains_sub(s: Seq<char>, p: Seq<char>) -> bool {
    exists|i: int| 0 <= i <= s.len() - p.len() && #[trigger] s.subrange(i, i + p.len()) == p
}

/// Splitting a text that holds no `c` gives the text itself, whole.
pub proof fn lemma_split_without(a: Seq<char>, c: char)
    requires
        !a.contains(c),
    ensures
        split_on(a, c) == seq![a],
    decreases a.len(),
{
    if a.len() > 0 {
        let init = a.drop_last();
        assert(!init.contains(c)) by {
            if init.contains(c) {
                let i = choose|i: int| 0 <= i < init.len() && init[i] == c;
                assert(a[i] == c);
            }
        }
        lemma_split_without(init, c);
        assert(a[a.len() - 1] == a.last());
        assert(init.push(a.last()) =~= a);
        assert(seq![init].update(0, init.push(a.last())) =~= seq![a]);
    } else {
        assert(a =~= Seq::<char>::empty());
    }
}

/// Splitting at the first `c`: the text before it, whole, then the pieces
/// of what follows it.
pub proof fn lemma_split_first(a: Seq<char>, c: char, b: Seq<char>)
    requires
        !a.contains(c),
    ensures
        split_on(a.push(c) + b, c) == seq![a] + split_on(b, c),
    decreases b.len(),
{
    let s = a.push(c) + b;
    if b.len() == 0 {
        assert(s =~= a.push(c));
        lemma_split_without(a, c);
        assert(s.drop_last() =~= a);
        assert(b =~= Seq::<char>::empty());
        assert(seq![a].push(Seq::<char>::empty()) =~= seq![a] + seq![Seq::<char>::empty()]);
    } else {
        let b0 = b.drop_last();
        lemma_split_first(a, c, b0);
        assert(s.drop_last() =~= a.push(c) + b0);
        assert(s.last() == b.last());
        lemma_split_nonempty(b0, c);
        let f0 = split_on(b0, c);
        let g = seq![a] + f0;
        if b.last() == c {
            assert(g.push(Seq::<char>::empty()) =~= seq![a] + f0.push(Seq::<char>::empty()));
        } else {
            assert(g.last() == f0.last());
            assert(g.update(g.len() - 1, g.last().push(b.last())) =~= seq![a] + f0.update(
                f0.len() - 1,
                f0.last().push(b.last()),
            ));
        }
    }
}


pub proof fn lemma_split_nonempty(s: Seq<char>, c: char)
    ensures
        split_on(s, c).len() >= 1,
    decreases s.len(),
{
    if s.len() > 0 {
        lemma_split_nonempty(s.drop_last(), c);
    }
}

/// The positions of the fields of `v[lo..hi]` between occurrences of `c`:
/// each pair is the start and end of one field of [`split_on`].
pub fn split_ranges(v: &Vec<char>, lo: usize, hi: usize, c: char) -> (r: Vec<(usize, usize)>)
    requires
        lo <= hi <= v.len(),
    ensures
        r.len() == split_on(v@.subrange(lo as int, hi as int), c).len(),
        forall|i: int|
            0 <= i < r.len() ==> {
                &&& lo <= (#[trigger] r@[i]).0 <= r@[i].1 <= hi
                &&& v@.subrange(r@[i].0 as int, r@[i].1 as int) == split_on(
                    v@.subrange(lo as int, hi as int),
                    c,
                )[i]
            },
{
    let mut r: Vec<(usize, usize)> = Vec::new();
    let mut start: usize = lo;
    let mut k: usize = lo;
    while k < hi
        invariant
            lo <= start <= k <= hi <= v.len(),
            ({
                let f = split_on(v@.subrange(lo as int, k as int), c);
                &&& f.len() == r.len() + 1
                &&& f.last() == v@.subrange(start as int, k as int)
                &&& forall|i: int|
                    0 <= i < r.len() ==> {
                        &&& lo <= (#[trigger] r@[i]).0 <= r@[i].1 <= start
                        &&& v@.subrange(r@[i].0 as int, r@[i].1 as int) == f[i]
                    }
            }),
        decreases hi - k,
    {
        let ghost before = split_on(v@.subrange(lo as int, k as int), c);
        proof {
            lemma_split_nonempty(v@.subrange(lo as int, k as int), c);
            let s1 = v@.subrange(lo as int, k + 1);
            assert(s1.drop_last() =~= v@.subrange(lo as int, k as int));
            assert(s1.last() == v@[k as int]);
        }
        if v[k] == c {
            r.push((start, k));
            start = k + 1;
            proof {
                let after = split_on(v@.subrange(lo as int, k + 1), c);
                assert(after == before.push(Seq::<char>::empty()));
                assert(v@.subrange(start as int, k + 1) =~= Seq::<char>::empty());
                assert forall|i: int| 0 <= i < r.len() implies {
                    &&& lo <= (#[trigger] r@[i]).0 <= r@[i].1 <= start
                    &&& v@.subrange(r@[i].0 as int, r@[i].1 as int) == after[i]
                } by {
                    if i < r.len() - 1 {
                        assert(after[i] == before[i]);
                    }
                }
            }
        } else {
            proof {
                let after = split_on(v@.subrange(lo as int, k + 1), c);
                assert(v@.subrange(start as int, k + 1) =~= v@.subrange(start as int, k as int).push(
                    v@[k as int],
                ));
                assert forall|i: int| 0 <= i < r.len() implies {
                    &&& lo <= (#[trigger] r@[i]).0 <= r@[i].1 <= start
                    &&& v@.subrange(r@[i].0 as int, r@[i].1 as int) == after[i]
                } by {
                    assert(after[i] == before[i]);
                }
            }
        }
        k = k + 1;
    }
    r.push((start, hi));
    proof {
        let f = split_on(v@.subrange(lo as int, hi as int), c);
        assert forall|i: int| 0 <= i < r.len() implies {
            &&& lo <= (#[trigger] r@[i]).0 <= r@[i].1 <= hi
            &&& v@.subrange(r@[i].0 as int, r@[i].1 as int) == f[i]
        } by {
            if i == r.len() - 1 {
                assert(f[i] == f.last());
            }
        }
    }
    r
}

/// Whether `p` occurs in `s[lo..hi]`.
pub fn contains_at(s: &Vec<char>, lo: usize, hi: usize, p: &Vec<char>) -> (r: bool)
    requires
        lo <= hi <= s.len(),
    ensures
        r == contains_sub(s@.subrange(lo as int, hi as int), p@),
{
    let ghost t = s@.subrange(lo as int, hi as int);
    if p.len() > hi - lo {
        return false;
    }
    let last = hi - p.len();
    let mut i: usize = lo;
    while i <= last
        invariant
            lo <= i <= last + 1,
            last == hi - p.len(),
            hi <= s.len(),
            t == s@.subrange(lo as int, hi as int),
            forall|j: int| 0 <= j < i - lo ==> #[trigger] t.subrange(j, j + p.len()) != p@,
        decreases last + 1 - i,
    {
        let mut k: usize = 0;
        let mut same = true;
        while k < p.len()
            invariant
                k <= p.len(),
                lo <= i <= last,
                last == hi - p.len(),
                hi <= s.len(),
                same == (forall|m: int| 0 <= m < k ==> s@[i + m] == p@[m]),
            decreases p.len() - k,
        {
            if s[i + k] != p[k] {
                same = false;
            }
            k = k + 1;
        }
        let ghost j = i - lo;
        if same {
            assert(t.subrange(j, j + p.len()) =~= p@);
            return true;
        }
        proof {
            if t.subrange(j, j + p.len()) == p@ {
                assert forall|m: int| 0 <= m < p.len() implies s@[i + m] == p@[m] by {
                    assert(t.subrange(j, j + p.len())[m] == s@[i + m]);
                }
            }
        }
        i = i + 1;
    }
    false
}

} // verus!

verus! {

/// Line `i` of `text`, counting from 0, as [`lines`] gives the lines.
pub fn nth_line(text: &str, i: usize) -> (r: Option<String>)
    ensures
        match r {
            Some(l) => i < lines(text@).len() && l@ == lines(text@)[i as int],
            None => i >= lines(text@).len(),
        },
{
    let v = chars_of(text);
    let ranges = split_ranges(&v, 0, v.len(), '\n');
    assert(v@.subrange(0, v@.len() as int) =~= v@);
    proof {
        lemma_split_nonempty(v@, '\n');
    }
    let ghost f = split_on(v@, '\n');
    let n = ranges.len();
    let (a_last, b_last) = ranges[n - 1];
    let count = if a_last == b_last { n - 1 } else { n };
    assert(lines(v@).len() == count) by {
        assert(f[n - 1] == v@.subrange(a_last as int, b_last as int));
    }
    if i >= count {
        return None;
    }
    let (a, b0) = ranges[i];
    let b = if i < n - 1 && b0 > a && v[b0 - 1] == '\r' { b0 - 1 } else { b0 };
    assert(v@.subrange(a as int, b as int) == lines(v@)[i as int]) by {
        assert(f[i as int] == v@.subrange(a as int, b0 as int));
        if b < b0 {
            assert(v@.subrange(a as int, b as int) =~= v@.subrange(a as int, b0 as int).drop_last());
        }
    }
    Some(String::from_str(text.substring_char(a, b)))
}

} // verus!

verus! {

/// The code of `c` with an ASCII capital letter made small.
pub open spec fn ascii_lower(c: char) -> int {
    if 'A' <= c && c <= 'Z' {
        (c as u32) + 32
    } else {
        c as u32 as int
    }
}

/// Whether `a` and `b` are the same text, ignoring ASCII case, as
/// `str::eq_ignore_ascii_case` compares them.
pub open spec fn same_ignoring_ascii_case(a: Seq<char>, b: Seq<char>) -> bool {
    a.len() == b.len() && forall|i: int| 0 <= i < a.len() ==> ascii_lower(#[trigger] a[i]) == ascii_lower(b[i])
}

fn lower(c: char) -> (r: u32)
    ensures
        r as int == ascii_lower(c),
{
    if 'A' <= c && c <= 'Z' {
        c as u32 + 32
    } else {
        c as u32
    }
}

/// Whether `a` and `b` are the same text, ignoring ASCII case.
pub fn eq_ignore_ascii_case(a: &str, b: &str) -> (r: bool)
    ensures
        r == same_ignoring_ascii_case(a@, b@),
{
    let x = chars_of(a);
    let y = chars_of(b);
    if x.len() != y.len() {
        return false;
    }
    let mut i: usize = 0;
    while i < x.len()
        invariant
            x@ == a@,
            y@ == b@,
            x.len() == y.len(),
            i <= x.len(),
            forall|j: int| 0 <= j < i ==> ascii_lower(#[trigger] x@[j]) == ascii_lower(y@[j]),
        decreases x.len() - i,
    {
        if lower(x[i]) != lower(y[i]) {
            return false;
        }
        i = i + 1;
    }
    true
}

/// Whether `p` begins `s`.
pub open spec fn starts_with(s: Seq<char>, p: Seq<char>) -> bool {
    p.len() <= s.len() && s.take(p.len() as int) == p
}

/// `s` without the leading `p`, or `s` itself when it does not begin with `p`.
pub open spec fn strip_prefix_or_keep(s: Seq<char>, p: Seq<char>) -> Seq<char> {
    if starts_with(s, p) {
        s.skip(p.len() as int)
    } else {
        s
    }
}

/// `s` without the leading `p`, or `s` itself when it does not begin with `p`.
pub fn strip_prefix_or_keep_str<'a>(s: &'a str, p: &str) -> (r: &'a str)
    ensures
        r@ == strip_prefix_or_keep(s@, p@),
{
    let x = chars_of(s);
    let y = chars_of(p);
    if y.len() > x.len() {
        return s;
    }
    let mut i: usize = 0;
    while i < y.len()
        invariant
            x@ == s@,
            y@ == p@,
            y.len() <= x.len(),
            i <= y.len(),
            forall|j: int| 0 <= j < i ==> x@[j] == y@[j],
        decreases y.len() - i,
    {
        if x[i] != y[i] {
            assert(s@.take(p@.len() as int)[i as int] != p@[i as int]);
            return s;
        }
        i = i + 1;
    }
    assert(s@.take(p@.len() as int) =~= p@);
    s.substring_char(y.len(), x.len())
}

} // verus!
