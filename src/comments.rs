use vstd::prelude::*;

use crate::models::Task;

verus! {

/// Whether `c` is white space in Unicode's sense (the `White_Space` property).
pub open spec fn is_ws(c: char) -> bool {
    let u = c as u32;
    (9 <= u && u <= 13) || u == 32 || u == 0x85 || u == 0xa0 || u == 0x1680 || (0x2000 <= u && u
        <= 0x200a) || u == 0x2028 || u == 0x2029 || u == 0x202f || u == 0x205f || u == 0x3000
}

/// Whether `c` is a bullet marker.
pub open spec fn is_bullet(c: char) -> bool {
    c == '*' || c == '-' || c == '•'
}

/// Whether `c` is an ASCII digit.
pub open spec fn is_digit(c: char) -> bool {
    '0' <= c && c <= '9'
}

/// `l` without its leading white space.
pub open spec fn trim_start(l: Seq<char>) -> Seq<char>
    decreases l.len(),
{
    if l.len() > 0 && is_ws(l[0]) {
        trim_start(l.drop_first())
    } else {
        l
    }
}

/// `l` without its trailing white space.
pub open spec fn trim_end(l: Seq<char>) -> Seq<char>
    decreases l.len(),
{
    if l.len() > 0 && is_ws(l.last()) {
        trim_end(l.drop_last())
    } else {
        l
    }
}

/// `l` without leading and trailing white space.
pub open spec fn trim(l: Seq<char>) -> Seq<char> {
    trim_end(trim_start(l))
}

/// The number of ASCII digits that `l` starts with.
pub open spec fn digit_run(l: Seq<char>) -> nat
    decreases l.len(),
{
    if l.len() > 0 && is_digit(l[0]) {
        1 + digit_run(l.drop_first())
    } else {
        0
    }
}

/// Whether `l` starts with an enumerator: digits followed by `.` or `)`.
pub open spec fn has_enumerator(l: Seq<char>) -> bool {
    0 < digit_run(l) < l.len() && (l[digit_run(l) as int] == '.' || l[digit_run(l) as int] == ')')
}

/// Whether `l` starts with a bullet marker or an enumerator.
pub open spec fn has_marker(l: Seq<char>) -> bool {
    (l.len() > 0 && is_bullet(l[0])) || has_enumerator(l)
}

/// `l` without the one bullet marker or enumerator it starts with, if any.
pub open spec fn strip_marker(l: Seq<char>) -> Seq<char> {
    if l.len() > 0 && is_bullet(l[0]) {
        l.drop_first()
    } else if has_enumerator(l) {
        l.subrange(digit_run(l) as int + 1, l.len() as int)
    } else {
        l
    }
}

/// A raw line made into a comment: trimmed, stripped of one leading marker,
/// and trimmed again.
pub open spec fn clean(l: Seq<char>) -> Seq<char> {
    trim(strip_marker(trim(l)))
}

/// The lines of `s`, split at each `'\n'`; there is always at least one.
pub open spec fn lines(s: Seq<char>) -> Seq<Seq<char>>
    decreases s.len(),
{
    if s.len() == 0 {
        seq![seq![]]
    } else {
        let init = lines(s.drop_last());
        if s.last() == '\n' {
            init.push(seq![])
        } else {
            init.update(init.len() - 1, init.last().push(s.last()))
        }
    }
}

/// The comments that the lines `ls` give: each line cleaned, empty ones dropped.
pub open spec fn keep(ls: Seq<Seq<char>>) -> Seq<Seq<char>>
    decreases ls.len(),
{
    if ls.len() == 0 {
        seq![]
    } else {
        let rest = keep(ls.drop_last());
        let c = clean(ls.last());
        if c.len() == 0 {
            rest
        } else {
            rest.push(c)
        }
    }
}

/// The comments of raw multi-line text `s`.
pub open spec fn normalize(s: Seq<char>) -> Seq<Seq<char>> {
    keep(lines(s))
}

/// The comments `cs` written one per line.
pub open spec fn join_lines(cs: Seq<Seq<char>>) -> Seq<char>
    decreases cs.len(),
{
    if cs.len() == 0 {
        seq![]
    } else if cs.len() == 1 {
        cs[0]
    } else {
        join_lines(cs.drop_last()) + seq!['\n'] + cs.last()
    }
}

/// The text of each string of `v`.
pub open spec fn texts(v: Seq<String>) -> Seq<Seq<char>> {
    v.map_values(|x: String| x@)
}

fn is_ws_char(c: char) -> (r: bool)
    ensures
        r == is_ws(c),
{
    let u = c as u32;
    (9 <= u && u <= 13) || u == 32 || u == 0x85 || u == 0xa0 || u == 0x1680 || (0x2000 <= u && u
        <= 0x200a) || u == 0x2028 || u == 0x2029 || u == 0x202f || u == 0x205f || u == 0x3000
}

/// The first index of `s@[from..to]` past its leading white space.
fn skip_ws_forward(s: &str, from: usize, to: usize) -> (a: usize)
    requires
        from <= to <= s@.len(),
    ensures
        from <= a <= to,
        trim_start(s@.subrange(from as int, to as int)) == s@.subrange(a as int, to as int),
{
    let mut a = from;
    while a < to && is_ws_char(s.get_char(a))
        invariant
            from <= a <= to <= s@.len(),
            trim_start(s@.subrange(from as int, to as int)) == trim_start(
                s@.subrange(a as int, to as int),
            ),
        decreases to - a,
    {
        proof {
            assert(s@.subrange(a as int, to as int).drop_first() =~= s@.subrange(a + 1, to as int));
        }
        a = a + 1;
    }
    a
}

/// The end of `s@[from..to]` without its trailing white space.
fn skip_ws_backward(s: &str, from: usize, to: usize) -> (b: usize)
    requires
        from <= to <= s@.len(),
    ensures
        from <= b <= to,
        trim_end(s@.subrange(from as int, to as int)) == s@.subrange(from as int, b as int),
{
    let mut b = to;
    while b > from && is_ws_char(s.get_char(b - 1))
        invariant
            from <= b <= to <= s@.len(),
            trim_end(s@.subrange(from as int, to as int)) == trim_end(
                s@.subrange(from as int, b as int),
            ),
        decreases b - from,
    {
        proof {
            assert(s@.subrange(from as int, b as int).drop_last() =~= s@.subrange(
                from as int,
                b - 1,
            ));
        }
        b = b - 1;
    }
    b
}

/// The start of `s@[from..to]` past the one marker it starts with, if any.
fn skip_marker(s: &str, from: usize, to: usize) -> (a: usize)
    requires
        from <= to <= s@.len(),
    ensures
        from <= a <= to,
        strip_marker(s@.subrange(from as int, to as int)) == s@.subrange(a as int, to as int),
{
    let ghost l = s@.subrange(from as int, to as int);
    if from < to {
        let c = s.get_char(from);
        if c == '*' || c == '-' || c == '•' {
            proof {
                assert(l.drop_first() =~= s@.subrange(from + 1, to as int));
            }
            return from + 1;
        }
    }
    let mut d = from;
    while d < to && '0' <= s.get_char(d) && s.get_char(d) <= '9'
        invariant
            from <= d <= to <= s@.len(),
            l == s@.subrange(from as int, to as int),
            digit_run(l) == (d - from) + digit_run(s@.subrange(d as int, to as int)),
        decreases to - d,
    {
        proof {
            assert(s@.subrange(d as int, to as int).drop_first() =~= s@.subrange(d + 1, to as int));
        }
        d = d + 1;
    }
    proof {
        assert(digit_run(l) == d - from);
    }
    if from < d && d < to {
        let c = s.get_char(d);
        if c == '.' || c == ')' {
            proof {
                assert(l.subrange(digit_run(l) as int + 1, l.len() as int) =~= s@.subrange(
                    d + 1,
                    to as int,
                ));
            }
            return d + 1;
        }
    }
    from
}

/// The bounds of the comment that line `s@[from..to]` gives.
fn clean_bounds(s: &str, from: usize, to: usize) -> (r: (usize, usize))
    requires
        from <= to <= s@.len(),
    ensures
        r.0 <= r.1 <= s@.len(),
        clean(s@.subrange(from as int, to as int)) == s@.subrange(r.0 as int, r.1 as int),
{
    let a = skip_ws_forward(s, from, to);
    let b = skip_ws_backward(s, a, to);
    let c = skip_marker(s, a, b);
    let d = skip_ws_forward(s, c, b);
    let e = skip_ws_backward(s, d, b);
    (d, e)
}

proof fn lemma_lines_step(s: Seq<char>, i: int)
    requires
        0 <= i < s.len(),
    ensures
        s[i] == '\n' ==> lines(s.subrange(0, i + 1)) == lines(s.subrange(0, i)).push(seq![]),
        s[i] != '\n' ==> lines(s.subrange(0, i + 1)) == lines(s.subrange(0, i)).update(
            lines(s.subrange(0, i)).len() - 1,
            lines(s.subrange(0, i)).last().push(s[i]),
        ),
{
    assert(s.subrange(0, i + 1).drop_last() =~= s.subrange(0, i));
}

proof fn lemma_keep_push(ls: Seq<Seq<char>>, l: Seq<char>)
    ensures
        keep(ls.push(l)) == (if clean(l).len() == 0 {
            keep(ls)
        } else {
            keep(ls).push(clean(l))
        }),
{
    assert(ls.push(l).drop_last() =~= ls);
}

impl Task {
    /// Splits raw multi-line text into comments: each line is trimmed, one
    /// leading bullet (`*`, `-`, `•`) or enumerator (digits then `.` or `)`) is
    /// stripped, the rest is trimmed again, and lines left empty are dropped.
    pub fn format_comments(input: &str) -> (r: Vec<String>)
        ensures
            texts(r@) == normalize(input@),
    {
        let n = input.unicode_len();
        let ghost s = input@;
        let ghost mut done: Seq<Seq<char>> = seq![];
        let mut r: Vec<String> = Vec::new();
        let mut start: usize = 0;
        let mut i: usize = 0;
        proof {
            assert(s.subrange(0, 0) =~= Seq::<char>::empty());
            assert(s.subrange(0, 0) =~= s.subrange(0, 0));
            assert(seq![Seq::<char>::empty()] =~= done.push(s.subrange(0, 0)));
        }
        while i < n
            invariant
                n == s.len(),
                s == input@,
                start <= i <= n,
                lines(s.subrange(0, i as int)) == done.push(s.subrange(start as int, i as int)),
                texts(r@) == keep(done),
            decreases n - i,
        {
            let c = input.get_char(i);
            proof {
                lemma_lines_step(s, i as int);
            }
            if c == '\n' {
                let (a, b) = clean_bounds(input, start, i);
                proof {
                    lemma_keep_push(done, s.subrange(start as int, i as int));
                }
                if a < b {
                    let text = input.substring_char(a, b).to_owned();
                    let ghost before = r@;
                    r.push(text);
                    proof {
                        assert(texts(r@) =~= texts(before).push(text@));
                    }
                }
                proof {
                    done = done.push(s.subrange(start as int, i as int));
                    assert(s.subrange(i + 1, i + 1) =~= Seq::<char>::empty());
                }
                start = i + 1;
            } else {
                proof {
                    assert(s.subrange(start as int, i as int).push(s[i as int]) =~= s.subrange(
                        start as int,
                        i + 1,
                    ));
                    assert(done.push(s.subrange(start as int, i as int)).update(
                        done.len() as int,
                        s.subrange(start as int, i + 1),
                    ) =~= done.push(s.subrange(start as int, i + 1)));
                }
            }
            i = i + 1;
        }
        let (a, b) = clean_bounds(input, start, n);
        proof {
            assert(s.subrange(0, n as int) =~= s);
            lemma_keep_push(done, s.subrange(start as int, n as int));
        }
        if a < b {
            let text = input.substring_char(a, b).to_owned();
            let ghost before = r@;
            r.push(text);
            proof {
                assert(texts(r@) =~= texts(before).push(text@));
            }
        }
        r
    }
}


/// Whether `l` holds no line break.
pub open spec fn single_line(l: Seq<char>) -> bool {
    forall|j: int| 0 <= j < l.len() ==> l[j] != '\n'
}

/// Whether `l` neither starts nor ends with white space.
pub open spec fn trimmed(l: Seq<char>) -> bool {
    l.len() == 0 || (!is_ws(l[0]) && !is_ws(l.last()))
}

proof fn lemma_lines_nonempty(s: Seq<char>)
    ensures
        lines(s).len() >= 1,
    decreases s.len(),
{
    if s.len() > 0 {
        lemma_lines_nonempty(s.drop_last());
    }
}

proof fn lemma_lines_single_line(s: Seq<char>)
    ensures
        forall|k: int| 0 <= k < lines(s).len() ==> single_line(#[trigger] lines(s)[k]),
    decreases s.len(),
{
    if s.len() > 0 {
        lemma_lines_single_line(s.drop_last());
        lemma_lines_nonempty(s.drop_last());
        let init = lines(s.drop_last());
        if s.last() != '\n' {
            let last = init.last().push(s.last());
            assert(single_line(init[init.len() - 1]));
            assert(single_line(last));
        }
    }
}

proof fn lemma_trim_start_props(l: Seq<char>)
    ensures
        single_line(l) ==> single_line(trim_start(l)),
        trim_start(l).len() == 0 || !is_ws(trim_start(l)[0]),
    decreases l.len(),
{
    if l.len() > 0 && is_ws(l[0]) {
        lemma_trim_start_props(l.drop_first());
    }
}

proof fn lemma_trim_end_props(l: Seq<char>)
    ensures
        single_line(l) ==> single_line(trim_end(l)),
        (l.len() == 0 || !is_ws(l[0])) ==> trimmed(trim_end(l)),
    decreases l.len(),
{
    if l.len() > 0 && is_ws(l.last()) {
        lemma_trim_end_props(l.drop_last());
    }
}

proof fn lemma_clean_props(l: Seq<char>)
    ensures
        single_line(l) ==> single_line(clean(l)),
        trimmed(clean(l)),
{
    lemma_trim_start_props(l);
    lemma_trim_end_props(trim_start(l));
    let m = strip_marker(trim(l));
    assert(single_line(trim(l)) ==> single_line(m));
    lemma_trim_start_props(m);
    lemma_trim_end_props(trim_start(m));
}

proof fn lemma_clean_fixed(c: Seq<char>)
    requires
        c.len() > 0,
        trimmed(c),
        !has_marker(c),
    ensures
        clean(c) == c,
{
    assert(trim_start(c) == c);
    assert(trim_end(c) == c);
    assert(strip_marker(c) == c);
}

proof fn lemma_keep_props(ls: Seq<Seq<char>>)
    requires
        forall|k: int| 0 <= k < ls.len() ==> single_line(#[trigger] ls[k]),
    ensures
        forall|k: int|
            0 <= k < keep(ls).len() ==> single_line(#[trigger] keep(ls)[k]) && trimmed(keep(ls)[k])
                && keep(ls)[k].len() > 0,
    decreases ls.len(),
{
    if ls.len() > 0 {
        let init = ls.drop_last();
        assert forall|k: int| 0 <= k < init.len() implies single_line(#[trigger] init[k]) by {
            assert(init[k] == ls[k]);
        }
        lemma_keep_props(init);
        assert(single_line(ls[ls.len() - 1]));
        lemma_clean_props(ls.last());
        let rest = keep(init);
        let c = clean(ls.last());
        if c.len() > 0 {
            assert forall|k: int| 0 <= k < keep(ls).len() implies single_line(#[trigger] keep(ls)[k])
                && trimmed(keep(ls)[k]) && keep(ls)[k].len() > 0 by {
                if k < rest.len() {
                    assert(keep(ls)[k] == rest[k]);
                } else {
                    assert(keep(ls)[k] == c);
                }
            }
        }
    }
}

proof fn lemma_lines_concat(a: Seq<char>, b: Seq<char>)
    ensures
        lines(a + seq!['\n'] + b) == lines(a) + lines(b),
    decreases b.len(),
{
    let w = a + seq!['\n'] + b;
    if b.len() == 0 {
        assert(w.drop_last() =~= a);
        assert(lines(w) =~= lines(a) + lines(b));
    } else {
        assert(w.drop_last() =~= a + seq!['\n'] + b.drop_last());
        lemma_lines_concat(a, b.drop_last());
        lemma_lines_nonempty(b.drop_last());
        lemma_lines_nonempty(a);
        let la = lines(a);
        let lb = lines(b.drop_last());
        if b.last() == '\n' {
            assert(lines(w) =~= la + lines(b));
        } else {
            assert((la + lb).update((la + lb).len() - 1, (la + lb).last().push(b.last())) =~= la
                + lb.update(lb.len() - 1, lb.last().push(b.last())));
            assert(lines(w) =~= la + lines(b));
        }
    }
}

proof fn lemma_lines_of_single_line(c: Seq<char>)
    requires
        single_line(c),
    ensures
        lines(c) == seq![c],
    decreases c.len(),
{
    if c.len() > 0 {
        let init = c.drop_last();
        assert(single_line(init)) by {
            assert forall|j: int| 0 <= j < init.len() implies init[j] != '\n' by {
                assert(init[j] == c[j]);
            }
        }
        lemma_lines_of_single_line(init);
        assert(c[c.len() - 1] != '\n');
        assert(init.push(c.last()) =~= c);
        assert(lines(c) =~= seq![c]);
    } else {
        assert(c =~= Seq::<char>::empty());
    }
}

proof fn lemma_lines_join(cs: Seq<Seq<char>>)
    requires
        cs.len() > 0,
        forall|k: int| 0 <= k < cs.len() ==> single_line(#[trigger] cs[k]),
    ensures
        lines(join_lines(cs)) == cs,
    decreases cs.len(),
{
    if cs.len() == 1 {
        assert(single_line(cs[0]));
        lemma_lines_of_single_line(cs[0]);
        assert(seq![cs[0]] =~= cs);
    } else {
        let init = cs.drop_last();
        assert forall|k: int| 0 <= k < init.len() implies single_line(#[trigger] init[k]) by {
            assert(init[k] == cs[k]);
        }
        lemma_lines_join(init);
        lemma_lines_concat(join_lines(init), cs.last());
        assert(single_line(cs[cs.len() - 1]));
        lemma_lines_of_single_line(cs.last());
        assert(init + seq![cs.last()] =~= cs);
    }
}

proof fn lemma_keep_fixed(cs: Seq<Seq<char>>)
    requires
        forall|k: int| 0 <= k < cs.len() ==> clean(#[trigger] cs[k]) == cs[k] && cs[k].len() > 0,
    ensures
        keep(cs) == cs,
    decreases cs.len(),
{
    if cs.len() > 0 {
        let init = cs.drop_last();
        assert forall|k: int| 0 <= k < init.len() implies clean(#[trigger] init[k]) == init[k]
            && init[k].len() > 0 by {
            assert(init[k] == cs[k]);
        }
        lemma_keep_fixed(init);
        assert(clean(cs[cs.len() - 1]) == cs[cs.len() - 1]);
        assert(init.push(cs.last()) =~= cs);
    }
}

/// Normalizing is idempotent: the comments of `x`, written one per line and
/// normalized again, are the same comments. One marker is stripped per line,
/// so this holds where no comment of `x` itself starts with a marker (for
/// `"* * a"` the comment is `"* a"`, which normalizes to `"a"`).
pub proof fn lemma_normalize_idempotent(x: Seq<char>)
    requires
        forall|k: int| 0 <= k < normalize(x).len() ==> !has_marker(#[trigger] normalize(x)[k]),
    ensures
        normalize(join_lines(normalize(x))) == normalize(x),
{
    let cs = normalize(x);
    lemma_lines_single_line(x);
    lemma_keep_props(lines(x));
    if cs.len() == 0 {
        let e = Seq::<char>::empty();
        assert(join_lines(cs) == e);
        assert(lines(e) == seq![e]);
        assert(trim_start(e) == e);
        assert(trim_end(e) == e);
        assert(strip_marker(e) == e);
        assert(clean(e) == e);
        assert(seq![e].drop_last() =~= Seq::<Seq<char>>::empty());
        assert(keep(seq![e]) == keep(Seq::<Seq<char>>::empty()));
        assert(cs =~= Seq::<Seq<char>>::empty());
    } else {
        lemma_lines_join(cs);
        assert forall|k: int| 0 <= k < cs.len() implies clean(#[trigger] cs[k]) == cs[k]
            && cs[k].len() > 0 by {
            lemma_clean_fixed(cs[k]);
        }
        lemma_keep_fixed(cs);
    }
}

} // verus!
