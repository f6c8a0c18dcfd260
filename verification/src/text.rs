//! Character-level string helpers and the line model shared by the editor.

use vstd::prelude::*;

verus! {

/// Split a character sequence on `'\n'`. The result always holds at least one
/// piece; a text without newlines is a single piece.
pub open spec fn split_lines(t: Seq<char>) -> Seq<Seq<char>>
    decreases t.len(),
{
    if t.len() == 0 {
        seq![Seq::<char>::empty()]
    } else {
        let rest = split_lines(t.drop_first());
        if t[0] == '\n' {
            seq![Seq::<char>::empty()] + rest
        } else {
            rest.update(0, seq![t[0]] + rest[0])
        }
    }
}

/// Join lines with `'\n'` between consecutive lines.
pub open spec fn join_lines(ls: Seq<Seq<char>>) -> Seq<char>
    decreases ls.len(),
{
    if ls.len() == 0 {
        Seq::<char>::empty()
    } else if ls.len() == 1 {
        ls[0]
    } else {
        ls[0] + seq!['\n'] + join_lines(ls.drop_first())
    }
}

/// A sequence that holds no newline character.
pub open spec fn no_newline(s: Seq<char>) -> bool {
    forall|i: int| 0 <= i < s.len() ==> s[i] != '\n'
}

/// The views of a vector of strings.
pub open spec fn views(v: Seq<String>) -> Seq<Seq<char>> {
    v.map_values(|s: String| s@)
}

pub proof fn lemma_split_len(t: Seq<char>)
    ensures
        split_lines(t).len() >= 1,
    decreases t.len(),
{
    if t.len() > 0 {
        lemma_split_len(t.drop_first());
    }
}

/// A text with a newline splits into at least two pieces.
pub proof fn lemma_split_newline(t: Seq<char>)
    requires
        !no_newline(t),
    ensures
        split_lines(t).len() >= 2,
    decreases t.len(),
{
    let r = t.drop_first();
    lemma_split_len(r);
    if t[0] != '\n' {
        assert(!no_newline(r)) by {
            let i = choose|i: int| 0 <= i < t.len() && t[i] == '\n';
            assert(r[i - 1] == '\n');
        }
        lemma_split_newline(r);
    }
}

/// Splitting a text that holds no newline gives the text back as one piece.
pub proof fn lemma_split_no_newline(a: Seq<char>)
    requires
        no_newline(a),
    ensures
        split_lines(a) == seq![a],
    decreases a.len(),
{
    if a.len() > 0 {
        let r = a.drop_first();
        assert(no_newline(r));
        lemma_split_no_newline(r);
        assert(seq![a[0]] + r =~= a);
        assert(split_lines(a) =~= seq![a]);
    } else {
        assert(a =~= Seq::<char>::empty());
    }
}

/// A newline-free prefix followed by a newline becomes its own piece.
pub proof fn lemma_split_prefix(a: Seq<char>, r: Seq<char>)
    requires
        no_newline(a),
    ensures
        split_lines(a + seq!['\n'] + r) == seq![a] + split_lines(r),
    decreases a.len(),
{
    let t = a + seq!['\n'] + r;
    if a.len() == 0 {
        assert(t.drop_first() =~= r);
        assert(a =~= Seq::<char>::empty());
    } else {
        let a1 = a.drop_first();
        assert(no_newline(a1));
        lemma_split_prefix(a1, r);
        assert(t.drop_first() =~= a1 + seq!['\n'] + r);
        assert(seq![a[0]] + a1 =~= a);
        lemma_split_len(r);
        assert(split_lines(t) =~= seq![a] + split_lines(r));
    }
}

/// Splitting then joining gives the text back.
pub proof fn lemma_join_split(t: Seq<char>)
    ensures
        join_lines(split_lines(t)) == t,
    decreases t.len(),
{
    if t.len() > 0 {
        let r = t.drop_first();
        lemma_join_split(r);
        lemma_split_len(r);
        let rest = split_lines(r);
        if t[0] == '\n' {
            let ls = seq![Seq::<char>::empty()] + rest;
            assert(ls.drop_first() =~= rest);
            assert(join_lines(ls) =~= t);
        } else {
            let ls = rest.update(0, seq![t[0]] + rest[0]);
            assert(t =~= seq![t[0]] + r);
            if rest.len() == 1 {
                assert(join_lines(ls) =~= t);
            } else {
                assert(ls.drop_first() =~= rest.drop_first());
                assert(join_lines(rest) == rest[0] + seq!['\n'] + join_lines(rest.drop_first()));
                assert(join_lines(ls) =~= t);
            }
        }
    } else {
        assert(t =~= Seq::<char>::empty());
    }
}

/// Joining a list extended by one line.
pub proof fn lemma_join_push(ls: Seq<Seq<char>>, x: Seq<char>)
    requires
        ls.len() >= 1,
    ensures
        join_lines(ls.push(x)) == join_lines(ls) + seq!['\n'] + x,
    decreases ls.len(),
{
    if ls.len() == 1 {
        assert(ls.push(x).drop_first() =~= seq![x]);
        assert(join_lines(seq![x]) == x);
        assert(ls.push(x)[0] == ls[0]);
    } else {
        assert(ls.push(x)[0] == ls[0]);
        lemma_join_push(ls.drop_first(), x);
        assert(ls.push(x).drop_first() =~= ls.drop_first().push(x));
        assert(join_lines(ls.push(x)) =~= join_lines(ls) + seq!['\n'] + x);
    }
}

/// Append one character to a `String` (std `String::push`).
#[verifier::external_body]
pub fn push_char(s: &mut String, c: char)
    ensures
        final(s)@ == old(s)@.push(c),
{
    s.push(c);
}

/// The characters of a string, in order.
pub fn chars_of(s: &str) -> (r: Vec<char>)
    ensures
        r@ == s@,
{
    let mut r: Vec<char> = Vec::new();
    for c in it: s.chars()
        invariant
            r@ == it.seq().take(it.index()),
            it.seq() == s@,
    {
        r.push(c);
    }
    r
}

/// The string made of `cs[lo..hi]`.
pub fn string_of(cs: &[char], lo: usize, hi: usize) -> (r: String)
    requires
        lo <= hi <= cs@.len(),
    ensures
        r@ == cs@.subrange(lo as int, hi as int),
{
    let mut r = String::new();
    let mut i = lo;
    while i < hi
        invariant
            lo <= i <= hi <= cs@.len(),
            r@ == cs@.subrange(lo as int, i as int),
        decreases hi - i,
    {
        push_char(&mut r, cs[i]);
        i += 1;
        assert(r@ =~= cs@.subrange(lo as int, i as int));
    }
    r
}

/// Split a text into its lines (see `split_lines`).
pub fn split_text(t: &str) -> (r: Vec<String>)
    ensures
        views(r@) == split_lines(t@),
{
    let cs = chars_of(t);
    let mut done: Vec<String> = Vec::new();
    let mut cur = String::new();
    let mut i: usize = 0;
    assert(cur@ + cs@.subrange(0, cs@.len() as int) =~= t@);
    assert(views(done@) + split_lines(t@) =~= split_lines(t@));
    while i < cs.len()
        invariant
            i <= cs@.len(),
            cs@ == t@,
            no_newline(cur@),
            views(done@) + split_lines(cur@ + cs@.subrange(i as int, cs@.len() as int))
                == split_lines(t@),
        decreases cs.len() - i,
    {
        let c = cs[i];
        let ghost rest = cs@.subrange(i as int + 1, cs@.len() as int);
        assert(cs@.subrange(i as int, cs@.len() as int) =~= seq![c] + rest);
        if c == '\n' {
            proof {
                assert(cur@ + cs@.subrange(i as int, cs@.len() as int) =~= cur@ + seq!['\n']
                    + rest);
                lemma_split_prefix(cur@, rest);
                assert(views(done@.push(cur)) =~= views(done@).push(cur@));
            }
            done.push(cur);
            cur = String::new();
            proof {
                assert(cur@ + rest =~= rest);
            }
        } else {
            let ghost old_cur = cur@;
            push_char(&mut cur, c);
            assert(cur@ + rest =~= old_cur + cs@.subrange(i as int, cs@.len() as int));
        }
        i += 1;
    }
    proof {
        assert(cur@ + cs@.subrange(i as int, cs@.len() as int) =~= cur@);
        lemma_split_no_newline(cur@);
        assert(views(done@.push(cur)) =~= views(done@).push(cur@));
    }
    done.push(cur);
    proof {
        assert(views(done@) =~= split_lines(t@));
    }
    done
}

/// Join lines with newlines (see `join_lines`).
pub fn join_text(ls: &Vec<String>) -> (r: String)
    ensures
        r@ == join_lines(views(ls@)),
{
    let mut s = String::new();
    let mut i: usize = 0;
    while i < ls.len()
        invariant
            i <= ls@.len(),
            i == 0 ==> s@ == Seq::<char>::empty(),
            i > 0 ==> s@ == join_lines(views(ls@).take(i as int)),
        decreases ls.len() - i,
    {
        let ghost prev = s@;
        if i > 0 {
            push_char(&mut s, '\n');
        }
        s.append(ls[i].as_str());
        proof {
            let vs = views(ls@);
            if i == 0 {
                assert(vs.take(1) =~= seq![vs[0]]);
                assert(s@ =~= vs[0]);
            } else {
                assert(vs.take(i as int + 1) =~= vs.take(i as int).push(vs[i as int]));
                lemma_join_push(vs.take(i as int), vs[i as int]);
            }
        }
        i += 1;
    }
    proof {
        if ls@.len() > 0 {
            assert(views(ls@).take(ls@.len() as int) =~= views(ls@));
        } else {
            assert(views(ls@) =~= Seq::<Seq<char>>::empty());
        }
    }
    s
}

/// The lines of a text as `str::lines` gives them: split on `'\n'`, a final
/// empty piece dropped, and one trailing `'\r'` removed from each line.
pub open spec fn text_lines(t: Seq<char>) -> Seq<Seq<char>> {
    let ps = split_lines(t);
    let qs = if ps.last().len() == 0 { ps.drop_last() } else { ps };
    qs.map_values(|l: Seq<char>| strip_cr(l))
}

/// A line without its trailing carriage return, if it has one.
pub open spec fn strip_cr(l: Seq<char>) -> Seq<char> {
    if l.len() > 0 && l.last() == '\r' { l.drop_last() } else { l }
}

/// `cs[lo..hi]` as a vector.
pub fn copy_chars(cs: &[char], lo: usize, hi: usize) -> (r: Vec<char>)
    requires
        lo <= hi <= cs@.len(),
    ensures
        r@ == cs@.subrange(lo as int, hi as int),
{
    let mut r: Vec<char> = Vec::new();
    let mut i = lo;
    while i < hi
        invariant
            lo <= i <= hi <= cs@.len(),
            r@ == cs@.subrange(lo as int, i as int),
        decreases hi - i,
    {
        r.push(cs[i]);
        i += 1;
        assert(r@ =~= cs@.subrange(lo as int, i as int));
    }
    r
}

/// The lines of a text, as character vectors (see `text_lines`).
pub fn lines_of(t: &str) -> (r: Vec<Vec<char>>)
    ensures
        r@.map_values(|l: Vec<char>| l@) == text_lines(t@),
{
    let parts = split_text(t);
    proof {
        lemma_split_len(t@);
    }
    let n = parts.len();
    let keep = if parts[n - 1].as_str().unicode_len() == 0 { n - 1 } else { n };
    let mut r: Vec<Vec<char>> = Vec::new();
    let mut i: usize = 0;
    let ghost ps = views(parts@);
    let ghost qs = if ps.last().len() == 0 { ps.drop_last() } else { ps };
    assert(qs.len() == keep);
    while i < keep
        invariant
            i <= keep <= n == parts@.len(),
            ps == views(parts@),
            qs.len() == keep,
            forall|j: int| 0 <= j < keep ==> qs[j] == ps[j],
            r@.map_values(|l: Vec<char>| l@) == qs.take(i as int).map_values(|l: Seq<char>| strip_cr(l)),
        decreases keep - i,
    {
        let cs = chars_of(parts[i].as_str());
        let m = cs.len();
        let line = if m > 0 && cs[m - 1] == '\r' { copy_chars(cs.as_slice(), 0, m - 1) } else { cs };
        proof {
            assert(cs@ == qs[i as int]);
            if m > 0 && cs@[m - 1] == '\r' {
                assert(line@ =~= cs@.drop_last());
            }
        }
        let ghost prev = r@;
        r.push(line);
        proof {
            assert(line@ == strip_cr(qs[i as int]));
            assert(r@.map_values(|l: Vec<char>| l@) =~= prev.map_values(|l: Vec<char>| l@).push(line@));
            assert(qs.take(i + 1).map_values(|l: Seq<char>| strip_cr(l)) =~= qs.take(i as int).map_values(
                |l: Seq<char>| strip_cr(l),
            ).push(strip_cr(qs[i as int])));
        }
        i += 1;
    }
    proof {
        assert(qs.take(keep as int) =~= qs);
    }
    r
}

/// `cs` without leading and trailing whitespace.
pub open spec fn trim(cs: Seq<char>) -> Seq<char> {
    let a = lead_ws(cs, 0);
    cs.subrange(a, trail_ws(cs, cs.len() as int, a))
}

/// Index of the first non-whitespace character at or after `i`.
pub open spec fn lead_ws(cs: Seq<char>, i: int) -> int
    decreases cs.len() - i,
{
    if 0 <= i < cs.len() && crate::chars::white(cs[i]) { lead_ws(cs, i + 1) } else { i }
}

/// Going left from `j` (not below `lo`), the end of the last non-whitespace.
pub open spec fn trail_ws(cs: Seq<char>, j: int, lo: int) -> int
    decreases j - lo,
{
    if lo < j <= cs.len() && crate::chars::white(cs[j - 1]) { trail_ws(cs, j - 1, lo) } else { j }
}

/// `cs` without leading and trailing whitespace (as `str::trim`).
pub fn trim_chars(cs: &[char]) -> (r: Vec<char>)
    ensures
        r@ == trim(cs@),
{
    let n = cs.len();
    let mut a: usize = 0;
    while a < n && crate::chars::is_whitespace(cs[a])
        invariant
            a <= n == cs@.len(),
            lead_ws(cs@, a as int) == lead_ws(cs@, 0),
        decreases n - a,
    {
        a += 1;
    }
    let mut b: usize = n;
    while b > a && crate::chars::is_whitespace(cs[b - 1])
        invariant
            a <= b <= n == cs@.len(),
            a == lead_ws(cs@, 0),
            trail_ws(cs@, b as int, a as int) == trail_ws(cs@, n as int, a as int),
        decreases b,
    {
        b -= 1;
    }
    copy_chars(cs, a, b)
}

/// `p` is a prefix of `cs`.
pub open spec fn has_prefix(cs: Seq<char>, p: Seq<char>) -> bool {
    p.len() <= cs.len() && cs.take(p.len() as int) == p
}

pub fn starts_with(cs: &[char], p: &str) -> (b: bool)
    ensures
        b == has_prefix(cs@, p@),
{
    let pc = chars_of(p);
    if pc.len() > cs.len() {
        return false;
    }
    let mut i: usize = 0;
    while i < pc.len()
        invariant
            i <= pc@.len() <= cs@.len(),
            pc@ == p@,
            forall|j: int| 0 <= j < i ==> cs@[j] == pc@[j],
        decreases pc.len() - i,
    {
        if cs[i] != pc[i] {
            proof {
                assert(cs@.take(pc@.len() as int)[i as int] != pc@[i as int]);
                assert(cs@.take(pc@.len() as int) != pc@);
            }
            return false;
        }
        i += 1;
    }
    assert(cs@.take(pc@.len() as int) =~= pc@);
    true
}

/// Whether the characters `cs` spell exactly `p`.
pub fn eq_str(cs: &[char], p: &str) -> (b: bool)
    ensures
        b == (cs@ == p@),
{
    let pc = chars_of(p);
    if pc.len() != cs.len() {
        return false;
    }
    let b = starts_with(cs, p);
    proof {
        assert(cs@.take(p@.len() as int) =~= cs@);
    }
    b
}

/// `cs` without the prefix `p`, when it has it (as `str::strip_prefix`).
pub open spec fn strip_prefix(cs: Seq<char>, p: Seq<char>) -> Option<Seq<char>> {
    if has_prefix(cs, p) {
        Some(cs.skip(p.len() as int))
    } else {
        None
    }
}

pub fn strip_prefix_chars(cs: &[char], p: &str) -> (r: Option<Vec<char>>)
    ensures
        match r {
            Some(v) => strip_prefix(cs@, p@) == Some(v@),
            None => strip_prefix(cs@, p@) is None,
        },
{
    if starts_with(cs, p) {
        let pl = chars_of(p).len();
        let v = copy_chars(cs, pl, cs.len());
        proof {
            assert(v@ =~= cs@.skip(p@.len() as int));
        }
        Some(v)
    } else {
        None
    }
}

/// Position of the first occurrence of `p` in `cs` at or after `k`.
pub open spec fn find_sub(cs: Seq<char>, p: Seq<char>, k: int) -> Option<int>
    decreases cs.len() + 1 - k,
{
    if k < 0 || k + p.len() > cs.len() {
        None
    } else if cs.subrange(k, k + p.len()) == p {
        Some(k)
    } else {
        find_sub(cs, p, k + 1)
    }
}

pub proof fn lemma_find_sub(cs: Seq<char>, p: Seq<char>, k: int)
    ensures
        find_sub(cs, p, k) matches Some(i) ==> k <= i && i + p.len() <= cs.len() && cs.subrange(
            i,
            i + p.len(),
        ) == p,
    decreases cs.len() + 1 - k,
{
    if k >= 0 && k + p.len() <= cs.len() && cs.subrange(k, k + p.len()) != p {
        lemma_find_sub(cs, p, k + 1);
    }
}

/// The text before and after the first `p` (as `str::split_once`).
pub open spec fn split_once(cs: Seq<char>, p: Seq<char>) -> Option<(Seq<char>, Seq<char>)> {
    match find_sub(cs, p, 0) {
        Some(i) => Some((cs.take(i), cs.skip(i + p.len()))),
        None => None,
    }
}

/// Whether `p` occurs in `cs` at position `k`.
fn matches_at(cs: &[char], k: usize, p: &[char]) -> (b: bool)
    requires
        k + p@.len() <= cs@.len(),
    ensures
        b == (cs@.subrange(k as int, k + p@.len()) == p@),
{
    let n = cs.len();
    let mut j: usize = 0;
    while j < p.len()
        invariant
            j <= p@.len(),
            n == cs@.len(),
            k + p@.len() <= cs@.len(),
            forall|t: int| 0 <= t < j ==> cs@[k + t] == p@[t],
        decreases p.len() - j,
    {
        if cs[k + j] != p[j] {
            proof {
                assert(cs@.subrange(k as int, k + p@.len())[j as int] != p@[j as int]);
            }
            return false;
        }
        j += 1;
    }
    assert(cs@.subrange(k as int, k + p@.len()) =~= p@);
    true
}

/// Split at the first `p` (as `str::split_once`).
pub fn split_once_chars(cs: &[char], p: &str) -> (r: Option<(Vec<char>, Vec<char>)>)
    ensures
        match r {
            Some((a, b)) => split_once(cs@, p@) == Some((a@, b@)),
            None => split_once(cs@, p@) is None,
        },
{
    let pc = chars_of(p);
    let n = cs.len();
    let m = pc.len();
    if m > n {
        return None;
    }
    let mut k: usize = 0;
    loop
        invariant
            m == p@.len() <= n == cs@.len(),
            k <= n - m,
            pc@ == p@,
            find_sub(cs@, p@, k as int) == find_sub(cs@, p@, 0),
        decreases n - m - k,
    {
        if matches_at(cs, k, pc.as_slice()) {
            let a = copy_chars(cs, 0, k);
            let b = copy_chars(cs, k + m, n);
            proof {
                assert(a@ =~= cs@.take(k as int));
                assert(b@ =~= cs@.skip(k + m));
            }
            return Some((a, b));
        }
        if k == n - m {
            assert(find_sub(cs@, p@, k + 1) is None);
            return None;
        }
        k += 1;
    }
}

/// Length of `cs[..j]` without its trailing `c`s.
pub open spec fn trail_char(cs: Seq<char>, j: int, c: char) -> int
    decreases j,
{
    if 0 < j <= cs.len() && cs[j - 1] == c { trail_char(cs, j - 1, c) } else { j }
}

/// `cs` without trailing `c`s (as `str::trim_end_matches` with a character).
pub fn trim_end_char(cs: &[char], c: char) -> (r: Vec<char>)
    ensures
        r@ == cs@.take(trail_char(cs@, cs@.len() as int, c)),
{
    let mut j = cs.len();
    while j > 0 && cs[j - 1] == c
        invariant
            j <= cs@.len(),
            trail_char(cs@, j as int, c) == trail_char(cs@, cs@.len() as int, c),
        decreases j,
    {
        j -= 1;
    }
    let r = copy_chars(cs, 0, j);
    assert(r@ =~= cs@.take(j as int));
    r
}

/// Split on every `sep`; always at least one piece.
pub open spec fn split_by(t: Seq<char>, sep: char) -> Seq<Seq<char>>
    decreases t.len(),
{
    if t.len() == 0 {
        seq![Seq::<char>::empty()]
    } else {
        let rest = split_by(t.drop_first(), sep);
        if t[0] == sep {
            seq![Seq::<char>::empty()] + rest
        } else {
            rest.update(0, seq![t[0]] + rest[0])
        }
    }
}

pub proof fn lemma_split_by_len(t: Seq<char>, sep: char)
    ensures
        split_by(t, sep).len() >= 1,
    decreases t.len(),
{
    if t.len() > 0 {
        lemma_split_by_len(t.drop_first(), sep);
    }
}

/// Split `cs[i..]` on `sep`, from the back, into `acc`.
pub proof fn lemma_split_by_step(t: Seq<char>, sep: char, i: int)
    requires
        0 <= i < t.len(),
    ensures
        split_by(t.subrange(i, t.len() as int), sep) == (if t[i] == sep {
            seq![Seq::<char>::empty()] + split_by(t.subrange(i + 1, t.len() as int), sep)
        } else {
            split_by(t.subrange(i + 1, t.len() as int), sep).update(
                0,
                seq![t[i]] + split_by(t.subrange(i + 1, t.len() as int), sep)[0],
            )
        }),
{
    assert(t.subrange(i, t.len() as int).drop_first() =~= t.subrange(i + 1, t.len() as int));
}

/// Split a character sequence on `sep` (as `str::split`).
pub fn split_chars(cs: &[char], sep: char) -> (r: Vec<Vec<char>>)
    ensures
        r@.map_values(|l: Vec<char>| l@) == split_by(cs@, sep),
{
    // build from the back: pieces of cs[i..]
    let n = cs.len();
    let mut rev: Vec<Vec<char>> = Vec::new();  // pieces, last first
    let mut cur: Vec<char> = Vec::new();  // current first piece, reversed
    let mut i: usize = n;
    proof {
        assert(cs@.subrange(n as int, n as int) =~= Seq::<char>::empty());
    }
    while i > 0
        invariant
            i <= n == cs@.len(),
            split_by(cs@.subrange(i as int, n as int), sep) == seq![cur@.reverse()] + rev@.map_values(
                |l: Vec<char>| l@,
            ).reverse(),
        decreases i,
    {
        i -= 1;
        proof {
            lemma_split_by_step(cs@, sep, i as int);
            lemma_split_by_len(cs@.subrange(i + 1, n as int), sep);
        }
        let ghost old_cur = cur@;
        let ghost old_rev = rev@;
        if cs[i] == sep {
            let c = cur;
            rev.push(reversed(&c));
            cur = Vec::new();
            proof {
                assert(rev@.map_values(|l: Vec<char>| l@).reverse() =~= seq![old_cur.reverse()]
                    + old_rev.map_values(|l: Vec<char>| l@).reverse());
                assert(cur@.reverse() =~= Seq::<char>::empty());
            }
        } else {
            cur.push(cs[i]);
            proof {
                assert(cur@.reverse() =~= seq![cs@[i as int]] + old_cur.reverse());
            }
        }
        proof {
            assert(split_by(cs@.subrange(i as int, n as int), sep) =~= seq![cur@.reverse()]
                + rev@.map_values(|l: Vec<char>| l@).reverse());
        }
    }
    let mut r: Vec<Vec<char>> = Vec::new();
    r.push(reversed(&cur));
    let mut k = rev.len();
    while k > 0
        invariant
            k <= rev@.len(),
            r@.map_values(|l: Vec<char>| l@) == seq![cur@.reverse()] + rev@.map_values(
                |l: Vec<char>| l@,
            ).reverse().take((rev@.len() - k) as int),
        decreases k,
    {
        k -= 1;
        let ghost prev = r@;
        r.push(copy_chars(rev[k].as_slice(), 0, rev[k].len()));
        proof {
            assert(rev@[k as int]@.subrange(0, rev@[k as int]@.len() as int) =~= rev@[k as int]@);
            let rr = rev@.map_values(|l: Vec<char>| l@).reverse();
            let m = (rev@.len() - k - 1) as int;
            assert(rr[m] == rev@[k as int]@);
            assert(rr.take(m + 1) =~= rr.take(m).push(rr[m]));
            assert(r@.map_values(|l: Vec<char>| l@) =~= prev.map_values(|l: Vec<char>| l@).push(
                rev@[k as int]@,
            ));
            assert(r@.map_values(|l: Vec<char>| l@) =~= seq![cur@.reverse()] + rev@.map_values(
                |l: Vec<char>| l@,
            ).reverse().take((rev@.len() - k) as int));
        }
    }
    proof {
        assert(cs@.subrange(0, n as int) =~= cs@);
        assert(rev@.map_values(|l: Vec<char>| l@).reverse().take(rev@.len() as int) =~= rev@.map_values(
            |l: Vec<char>| l@,
        ).reverse());
    }
    r
}

/// The characters of `v` in reverse order.
pub fn reversed(v: &Vec<char>) -> (r: Vec<char>)
    ensures
        r@ == v@.reverse(),
{
    let mut r: Vec<char> = Vec::new();
    let mut i = v.len();
    while i > 0
        invariant
            i <= v@.len(),
            r@ == v@.subrange(i as int, v@.len() as int).reverse(),
        decreases i,
    {
        i -= 1;
        r.push(v[i]);
        assert(r@ =~= v@.subrange(i as int, v@.len() as int).reverse());
    }
    assert(v@.subrange(0, v@.len() as int) =~= v@);
    r
}

} // verus!
