//! Text helpers: characters of a string, Unicode white space, trimming, and
//! splitting an address list into its entries.

use vstd::prelude::*;

verus! {

broadcast use vstd::string::group_string_axioms;

/// Unicode `White_Space`, the set that `char::is_whitespace` tests.
pub open spec fn is_white_space(c: char) -> bool {
    let u = c as u32;
    ||| 0x09 <= u <= 0x0d
    ||| u == 0x20
    ||| u == 0x85
    ||| u == 0xa0
    ||| u == 0x1680
    ||| 0x2000 <= u <= 0x200a
    ||| u == 0x2028
    ||| u == 0x2029
    ||| u == 0x202f
    ||| u == 0x205f
    ||| u == 0x3000
}

/// `s` without its leading white space.
pub open spec fn trim_start(s: Seq<char>) -> Seq<char>
    decreases s.len(),
{
    if s.len() > 0 && is_white_space(s[0]) {
        trim_start(s.drop_first())
    } else {
        s
    }
}

/// `s` without its trailing white space.
pub open spec fn trim_end(s: Seq<char>) -> Seq<char>
    decreases s.len(),
{
    if s.len() > 0 && is_white_space(s.last()) {
        trim_end(s.drop_last())
    } else {
        s
    }
}

/// `s` without leading and trailing white space, as `str::trim` gives it.
pub open spec fn trim(s: Seq<char>) -> Seq<char> {
    trim_end(trim_start(s))
}

/// The characters that separate entries of an address list: line ends,
/// commas and semicolons.
pub open spec fn is_separator(c: char) -> bool {
    c == '\n' || c == ',' || c == ';'
}

/// The pieces of `s` between separators, in order; there is always at least
/// one, and pieces may be empty.
pub open spec fn pieces(s: Seq<char>) -> Seq<Seq<char>>
    decreases s.len(),
{
    if s.len() == 0 {
        seq![Seq::<char>::empty()]
    } else {
        let p = pieces(s.drop_last());
        let c = s.last();
        if is_separator(c) {
            p.push(Seq::<char>::empty())
        } else {
            p.update(p.len() - 1, p.last().push(c))
        }
    }
}

/// The trimmed pieces that are not empty, in order.
pub open spec fn nonempty_trimmed(ps: Seq<Seq<char>>) -> Seq<Seq<char>>
    decreases ps.len(),
{
    if ps.len() == 0 {
        Seq::<Seq<char>>::empty()
    } else {
        let rest = nonempty_trimmed(ps.drop_last());
        let t = trim(ps.last());
        if t.len() == 0 {
            rest
        } else {
            rest.push(t)
        }
    }
}

/// The entries of an address list: split at line ends, commas and
/// semicolons, each piece trimmed, empty pieces dropped.
pub open spec fn entries(s: Seq<char>) -> Seq<Seq<char>> {
    nonempty_trimmed(pieces(s))
}

pub open spec fn string_views(v: Seq<String>) -> Seq<Seq<char>> {
    v.map_values(|x: String| x@)
}

/// The characters of `s`.
pub fn chars_of(s: &str) -> (v: Vec<char>)
    ensures
        v@ == s@,
{
    let mut v: Vec<char> = Vec::new();
    for c in it: s.chars()
        invariant
            v@ == it.seq().take(it.index() as int),
            it.seq() == s@,
    {
        v.push(c);
    }
    v
}

/// `String::push`: appends one character.
#[verifier::external_body]
fn push_char(s: &mut String, c: char)
    ensures
        final(s)@ == old(s)@.push(c),
{
    s.push(c);
}

/// `char::is_whitespace`.
pub fn is_white_space_char(c: char) -> (b: bool)
    ensures
        b == is_white_space(c),
{
    let u = c as u32;
    (0x09 <= u && u <= 0x0d) || u == 0x20 || u == 0x85 || u == 0xa0 || u == 0x1680 || (0x2000
        <= u && u <= 0x200a) || u == 0x2028 || u == 0x2029 || u == 0x202f || u == 0x205f || u
        == 0x3000
}

proof fn lemma_trim_start_skips(s: Seq<char>, a: int)
    requires
        0 <= a <= s.len(),
        forall|k: int| 0 <= k < a ==> is_white_space(#[trigger] s[k]),
        a == s.len() || !is_white_space(s[a]),
    ensures
        trim_start(s) == s.subrange(a, s.len() as int),
    decreases a,
{
    if a == 0 {
        assert(s.subrange(0, s.len() as int) =~= s);
    } else {
        let t = s.drop_first();
        assert forall|k: int| 0 <= k < a - 1 implies is_white_space(#[trigger] t[k]) by {
            assert(t[k] == s[k + 1]);
        }
        lemma_trim_start_skips(t, a - 1);
        assert(t.subrange(a - 1, t.len() as int) =~= s.subrange(a, s.len() as int));
    }
}

proof fn lemma_trim_end_drops(s: Seq<char>, b: int)
    requires
        0 <= b <= s.len(),
        forall|k: int| b <= k < s.len() ==> is_white_space(#[trigger] s[k]),
        b == 0 || !is_white_space(s[b - 1]),
    ensures
        trim_end(s) == s.subrange(0, b),
    decreases s.len() - b,
{
    if b == s.len() {
        assert(s.subrange(0, b) =~= s);
    } else {
        let t = s.drop_last();
        assert forall|k: int| b <= k < t.len() implies is_white_space(#[trigger] t[k]) by {
            assert(t[k] == s[k]);
        }
        lemma_trim_end_drops(t, b);
        assert(t.subrange(0, b) =~= s.subrange(0, b));
    }
}

/// The bounds of `cs` without leading and trailing white space.
pub fn trim_bounds(cs: &[char]) -> (r: (usize, usize))
    ensures
        r.0 <= r.1 <= cs@.len(),
        trim(cs@) == cs@.subrange(r.0 as int, r.1 as int),
{
    let n = cs.len();
    let mut a: usize = 0;
    while a < n && is_white_space_char(cs[a])
        invariant
            a <= n,
            n == cs@.len(),
            forall|k: int| 0 <= k < a ==> is_white_space(#[trigger] cs@[k]),
        decreases n - a,
    {
        a = a + 1;
    }
    let mut b: usize = n;
    while b > a && is_white_space_char(cs[b - 1])
        invariant
            a <= b <= n,
            n == cs@.len(),
            forall|k: int| b <= k < n ==> is_white_space(#[trigger] cs@[k]),
        decreases b,
    {
        b = b - 1;
    }
    proof {
        lemma_trim_start_skips(cs@, a as int);
        let t = cs@.subrange(a as int, n as int);
        assert forall|k: int| b - a <= k < t.len() implies is_white_space(#[trigger] t[k]) by {
            assert(t[k] == cs@[k + a]);
        }
        if b > a {
            assert(t[b - a - 1] == cs@[b - 1]);
        }
        lemma_trim_end_drops(t, b - a);
        assert(t.subrange(0, b - a) =~= cs@.subrange(a as int, b as int));
    }
    (a, b)
}

/// A `String` of the characters `cs[from..to]`.
pub fn string_of_range(cs: &[char], from: usize, to: usize) -> (r: String)
    requires
        from <= to <= cs@.len(),
    ensures
        r@ == cs@.subrange(from as int, to as int),
{
    let mut r = String::new();
    let mut i: usize = from;
    while i < to
        invariant
            from <= i <= to <= cs@.len(),
            r@ == cs@.subrange(from as int, i as int),
        decreases to - i,
    {
        push_char(&mut r, cs[i]);
        assert(cs@.subrange(from as int, i + 1) =~= cs@.subrange(from as int, i as int).push(
            cs@[i as int],
        ));
        i = i + 1;
    }
    r
}

proof fn lemma_pieces_nonempty(s: Seq<char>)
    ensures
        pieces(s).len() >= 1,
    decreases s.len(),
{
    if s.len() > 0 {
        lemma_pieces_nonempty(s.drop_last());
    }
}

/// Splits an address list into its entries: the pieces between line ends,
/// commas and semicolons, trimmed, without the empty ones.
pub fn split_entries(input: &str) -> (r: Vec<String>)
    ensures
        string_views(r@) == entries(input@),
{
    let cs = chars_of(input);
    let n = cs.len();
    let mut out: Vec<String> = Vec::new();
    let mut cur: Vec<char> = Vec::new();
    let ghost mut done: Seq<Seq<char>> = Seq::empty();
    let mut i: usize = 0;
    proof {
        assert(cs@.take(0) =~= Seq::<char>::empty());
        assert(pieces(cs@.take(0)) =~= done.push(cur@));
        assert(string_views(out@) =~= nonempty_trimmed(done));
    }
    while i < n
        invariant
            i <= n,
            n == cs@.len(),
            pieces(cs@.take(i as int)) == done.push(cur@),
            string_views(out@) == nonempty_trimmed(done),
        decreases n - i,
    {
        let c = cs[i];
        proof {
            assert(cs@.take(i + 1).drop_last() =~= cs@.take(i as int));
            assert(cs@.take(i + 1).last() == c);
            lemma_pieces_nonempty(cs@.take(i as int));
        }
        if c == '\n' || c == ',' || c == ';' {
            emit_piece(&mut out, &cur, Ghost(done));
            proof {
                done = done.push(cur@);
            }
            cur = Vec::new();
            proof {
                assert(pieces(cs@.take(i + 1)) =~= done.push(cur@));
            }
        } else {
            let ghost old_cur = cur@;
            cur.push(c);
            proof {
                let p = pieces(cs@.take(i as int));
                assert(p.last() == old_cur);
                assert(pieces(cs@.take(i + 1)) =~= done.push(cur@));
            }
        }
        i = i + 1;
    }
    proof {
        assert(cs@.take(n as int) =~= input@);
    }
    emit_piece(&mut out, &cur, Ghost(done));
    out
}

/// The lines of `s`: the pieces between line ends, in order; there is
/// always at least one, and lines may be empty.
pub open spec fn lines(s: Seq<char>) -> Seq<Seq<char>>
    decreases s.len(),
{
    if s.len() == 0 {
        seq![Seq::<char>::empty()]
    } else {
        let p = lines(s.drop_last());
        let c = s.last();
        if c == '\n' {
            p.push(Seq::<char>::empty())
        } else {
            p.update(p.len() - 1, p.last().push(c))
        }
    }
}

proof fn lemma_lines_nonempty(s: Seq<char>)
    ensures
        lines(s).len() >= 1,
    decreases s.len(),
{
    if s.len() > 0 {
        lemma_lines_nonempty(s.drop_last());
    }
}

/// The lines of a text, each trimmed, without the empty ones: the form in
/// which an address list is remembered.
pub fn nonempty_lines(input: &str) -> (r: Vec<String>)
    ensures
        string_views(r@) == nonempty_trimmed(lines(input@)),
{
    let cs = chars_of(input);
    let n = cs.len();
    let mut out: Vec<String> = Vec::new();
    let mut cur: Vec<char> = Vec::new();
    let ghost mut done: Seq<Seq<char>> = Seq::empty();
    let mut i: usize = 0;
    proof {
        assert(cs@.take(0) =~= Seq::<char>::empty());
        assert(lines(cs@.take(0)) =~= done.push(cur@));
        assert(string_views(out@) =~= nonempty_trimmed(done));
    }
    while i < n
        invariant
            i <= n,
            n == cs@.len(),
            lines(cs@.take(i as int)) == done.push(cur@),
            string_views(out@) == nonempty_trimmed(done),
        decreases n - i,
    {
        let c = cs[i];
        proof {
            assert(cs@.take(i + 1).drop_last() =~= cs@.take(i as int));
            assert(cs@.take(i + 1).last() == c);
            lemma_lines_nonempty(cs@.take(i as int));
        }
        if c == '\n' {
            emit_piece(&mut out, &cur, Ghost(done));
            proof {
                done = done.push(cur@);
            }
            cur = Vec::new();
            proof {
                assert(lines(cs@.take(i + 1)) =~= done.push(cur@));
            }
        } else {
            let ghost old_cur = cur@;
            cur.push(c);
            proof {
                let p = lines(cs@.take(i as int));
                assert(p.last() == old_cur);
                assert(lines(cs@.take(i + 1)) =~= done.push(cur@));
            }
        }
        i = i + 1;
    }
    proof {
        assert(cs@.take(n as int) =~= input@);
    }
    emit_piece(&mut out, &cur, Ghost(done));
    out
}

/// Appends the trimmed piece `cur` to `out` unless it is empty.
fn emit_piece(out: &mut Vec<String>, cur: &Vec<char>, Ghost(done): Ghost<Seq<Seq<char>>>)
    requires
        string_views(old(out)@) == nonempty_trimmed(done),
    ensures
        string_views(final(out)@) == nonempty_trimmed(done.push(cur@)),
{
    let (a, b) = trim_bounds(cur.as_slice());
    proof {
        assert(done.push(cur@).drop_last() =~= done);
    }
    if a < b {
        let t = string_of_range(cur.as_slice(), a, b);
        out.push(t);
        proof {
            assert(string_views(out@) =~= string_views(old(out)@).push(t@));
        }
    } else {
        assert(trim(cur@).len() == 0);
    }
}

proof fn lemma_trim_start_shape(s: Seq<char>)
    ensures
        trim_start(s).len() <= s.len(),
        trim_start(s) == s.subrange(s.len() - trim_start(s).len(), s.len() as int),
        trim_start(s).len() > 0 ==> !is_white_space(trim_start(s)[0]),
    decreases s.len(),
{
    if s.len() > 0 && is_white_space(s[0]) {
        lemma_trim_start_shape(s.drop_first());
        assert(s.drop_first().subrange(
            s.drop_first().len() - trim_start(s).len(),
            s.drop_first().len() as int,
        ) =~= s.subrange(s.len() - trim_start(s).len(), s.len() as int));
    } else {
        assert(s.subrange(0, s.len() as int) =~= s);
    }
}

proof fn lemma_trim_end_shape(s: Seq<char>)
    ensures
        trim_end(s).len() <= s.len(),
        trim_end(s) == s.subrange(0, trim_end(s).len() as int),
        trim_end(s).len() > 0 ==> !is_white_space(trim_end(s).last()),
    decreases s.len(),
{
    if s.len() > 0 && is_white_space(s.last()) {
        lemma_trim_end_shape(s.drop_last());
        assert(s.drop_last().subrange(0, trim_end(s).len() as int) =~= s.subrange(
            0,
            trim_end(s).len() as int,
        ));
    } else {
        assert(s.subrange(0, s.len() as int) =~= s);
    }
}

/// A trimmed text neither starts nor ends with white space, and holds only
/// characters of the text.
proof fn lemma_trim_shape(s: Seq<char>)
    ensures
        trim(s).len() > 0 ==> !is_white_space(trim(s)[0]) && !is_white_space(trim(s).last()),
        forall|k: int| 0 <= k < trim(s).len() ==> s.contains(#[trigger] trim(s)[k]),
{
    lemma_trim_start_shape(s);
    let t = trim_start(s);
    lemma_trim_end_shape(t);
    let u = trim_end(t);
    if u.len() > 0 {
        assert(u[0] == t[0]);
    }
    assert forall|k: int| 0 <= k < u.len() implies s.contains(#[trigger] u[k]) by {
        assert(u[k] == t[k]);
        assert(t[k] == s[s.len() - t.len() + k]);
    }
}

proof fn lemma_pieces_have_no_separator(s: Seq<char>)
    ensures
        forall|i: int, k: int|
            0 <= i < pieces(s).len() && 0 <= k < pieces(s)[i].len() ==> !is_separator(
                #[trigger] pieces(s)[i][k],
            ),
    decreases s.len(),
{
    if s.len() > 0 {
        lemma_pieces_have_no_separator(s.drop_last());
        lemma_pieces_nonempty(s.drop_last());
        let p = pieces(s.drop_last());
        if !is_separator(s.last()) {
            assert forall|i: int, k: int|
                0 <= i < pieces(s).len() && 0 <= k < pieces(s)[i].len() implies !is_separator(
                #[trigger] pieces(s)[i][k],
            ) by {
                if i == p.len() - 1 {
                    if k < p.last().len() {
                        assert(pieces(s)[i][k] == p[i][k]);
                    }
                } else {
                    assert(pieces(s)[i] == p[i]);
                }
            }
        } else {
            assert forall|i: int, k: int|
                0 <= i < pieces(s).len() && 0 <= k < pieces(s)[i].len() implies !is_separator(
                #[trigger] pieces(s)[i][k],
            ) by {
                if i < p.len() {
                    assert(pieces(s)[i] == p[i]);
                }
            }
        }
    }
}

proof fn lemma_nonempty_trimmed_shape(ps: Seq<Seq<char>>)
    requires
        forall|i: int, k: int|
            0 <= i < ps.len() && 0 <= k < ps[i].len() ==> !is_separator(#[trigger] ps[i][k]),
    ensures
        forall|i: int|
            0 <= i < nonempty_trimmed(ps).len() ==> entry_shape(#[trigger] nonempty_trimmed(ps)[i]),
    decreases ps.len(),
{
    if ps.len() > 0 {
        let q = ps.drop_last();
        assert forall|i: int, k: int| 0 <= i < q.len() && 0 <= k < q[i].len() implies !is_separator(
            #[trigger] q[i][k],
        ) by {
            assert(q[i] == ps[i]);
        }
        lemma_nonempty_trimmed_shape(q);
        let t = trim(ps.last());
        lemma_trim_shape(ps.last());
        assert forall|k: int| 0 <= k < t.len() implies !is_separator(#[trigger] t[k]) by {
            let c = t[k];
            assert(ps.last().contains(c));
            let m = choose|m: int| 0 <= m < ps.last().len() && ps.last()[m] == c;
            assert(ps[ps.len() - 1][m] == c);
        }
        let rest = nonempty_trimmed(q);
        let all = nonempty_trimmed(ps);
        assert forall|i: int| 0 <= i < all.len() implies entry_shape(#[trigger] all[i]) by {
            if i < rest.len() {
                assert(all[i] == rest[i]);
            } else {
                assert(all[i] == t);
            }
        }
    }
}

/// The shape of every entry: not empty, no white space at either end, and
/// no line end, comma or semicolon in it.
pub open spec fn entry_shape(e: Seq<char>) -> bool {
    &&& e.len() > 0
    &&& !is_white_space(e[0])
    &&& !is_white_space(e.last())
    &&& forall|k: int| 0 <= k < e.len() ==> !is_separator(#[trigger] e[k])
}

/// Every entry of an address list is non-empty, has no white space at
/// either end, and holds no separator.
pub proof fn lemma_entries_shape(s: Seq<char>)
    ensures
        forall|i: int| 0 <= i < entries(s).len() ==> entry_shape(#[trigger] entries(s)[i]),
{
    lemma_pieces_have_no_separator(s);
    lemma_nonempty_trimmed_shape(pieces(s));
}

/// Entries written one per line.
pub open spec fn join_lines(es: Seq<Seq<char>>) -> Seq<char>
    decreases es.len(),
{
    if es.len() == 0 {
        Seq::empty()
    } else if es.len() == 1 {
        es[0]
    } else {
        join_lines(es.drop_last()) + seq!['\n'] + es.last()
    }
}

pub open spec fn no_separator(t: Seq<char>) -> bool {
    forall|k: int| 0 <= k < t.len() ==> !is_separator(#[trigger] t[k])
}

proof fn lemma_pieces_append_plain(s: Seq<char>, t: Seq<char>)
    requires
        no_separator(t),
    ensures
        pieces(s + t) == pieces(s).update(pieces(s).len() - 1, pieces(s).last() + t),
    decreases t.len(),
{
    lemma_pieces_nonempty(s);
    if t.len() == 0 {
        assert(s + t =~= s);
        assert(pieces(s).last() + t =~= pieces(s).last());
        assert(pieces(s).update(pieces(s).len() - 1, pieces(s).last()) =~= pieces(s));
    } else {
        let u = t.drop_last();
        assert(no_separator(u)) by {
            assert forall|k: int| 0 <= k < u.len() implies !is_separator(#[trigger] u[k]) by {
                assert(u[k] == t[k]);
            }
        }
        lemma_pieces_append_plain(s, u);
        assert((s + t).drop_last() =~= s + u);
        assert((s + t).last() == t.last());
        assert(!is_separator(t[t.len() - 1]));
        lemma_pieces_nonempty(s + u);
        assert(pieces(s + t) =~= pieces(s).update(pieces(s).len() - 1, pieces(s).last() + t)) by {
            assert(pieces(s).last() + u + seq![t.last()] =~= pieces(s).last() + t);
            assert((pieces(s).last() + u).push(t.last()) =~= pieces(s).last() + t);
        }
    }
}

proof fn lemma_pieces_of_join(es: Seq<Seq<char>>)
    requires
        es.len() > 0,
        forall|i: int| 0 <= i < es.len() ==> no_separator(#[trigger] es[i]),
    ensures
        pieces(join_lines(es)) == es,
    decreases es.len(),
{
    let e = es.last();
    assert(no_separator(es[es.len() - 1]));
    if es.len() == 1 {
        lemma_pieces_append_plain(Seq::<char>::empty(), e);
        assert(Seq::<char>::empty() + e =~= e);
        assert(pieces(Seq::<char>::empty()) =~= seq![Seq::<char>::empty()]);
        assert(Seq::<char>::empty() + e =~= es[0]);
        assert(pieces(join_lines(es)) =~= es);
    } else {
        let rest = es.drop_last();
        assert forall|i: int| 0 <= i < rest.len() implies no_separator(#[trigger] rest[i]) by {
            assert(rest[i] == es[i]);
        }
        lemma_pieces_of_join(rest);
        let j = join_lines(rest);
        let jn = j + seq!['\n'];
        assert(jn =~= j.push('\n'));
        assert(jn.drop_last() =~= j);
        assert(pieces(jn) == pieces(j).push(Seq::<char>::empty()));
        lemma_pieces_append_plain(jn, e);
        assert(Seq::<char>::empty() + e =~= e);
        assert(pieces(jn + e) =~= es);
    }
}

proof fn lemma_shaped_is_trimmed(e: Seq<char>)
    requires
        entry_shape(e),
    ensures
        trim(e) == e,
{
    assert(trim_start(e) == e);
    assert(trim_end(e) == e);
}

proof fn lemma_nonempty_trimmed_of_shaped(es: Seq<Seq<char>>)
    requires
        forall|i: int| 0 <= i < es.len() ==> entry_shape(#[trigger] es[i]),
    ensures
        nonempty_trimmed(es) == es,
    decreases es.len(),
{
    if es.len() > 0 {
        let rest = es.drop_last();
        assert forall|i: int| 0 <= i < rest.len() implies entry_shape(#[trigger] rest[i]) by {
            assert(rest[i] == es[i]);
        }
        lemma_nonempty_trimmed_of_shaped(rest);
        assert(entry_shape(es[es.len() - 1]));
        lemma_shaped_is_trimmed(es.last());
        assert(rest.push(es.last()) =~= es);
    }
}

/// Entries written one per line read back as the same entries, provided
/// each has the shape of an entry (non-empty, trimmed, no separator).
pub proof fn lemma_join_lines_reads_back(es: Seq<Seq<char>>)
    requires
        forall|i: int| 0 <= i < es.len() ==> entry_shape(#[trigger] es[i]),
    ensures
        entries(join_lines(es)) == es,
{
    if es.len() == 0 {
        assert(pieces(Seq::<char>::empty()) =~= seq![Seq::<char>::empty()]);
        assert(trim(Seq::<char>::empty()) =~= Seq::<char>::empty());
        let ps = seq![Seq::<char>::empty()];
        assert(ps.drop_last() =~= Seq::<Seq<char>>::empty());
        assert(ps.last() == Seq::<char>::empty());
        assert(nonempty_trimmed(Seq::<Seq<char>>::empty()) == Seq::<Seq<char>>::empty());
        assert(trim(ps.last()).len() == 0);
        assert(nonempty_trimmed(ps) =~= Seq::<Seq<char>>::empty());
        assert(entries(join_lines(es)) =~= es);
    } else {
        assert forall|i: int| 0 <= i < es.len() implies no_separator(#[trigger] es[i]) by {
            assert(entry_shape(es[i]));
        }
        lemma_pieces_of_join(es);
        lemma_nonempty_trimmed_of_shaped(es);
    }
}

/// Reading an address list, writing its entries one per line and reading
/// that again gives the same entries.
pub proof fn lemma_entries_stable(s: Seq<char>)
    ensures
        entries(join_lines(entries(s))) == entries(s),
{
    lemma_entries_shape(s);
    lemma_join_lines_reads_back(entries(s));
}

proof fn lemma_pieces_after_separator(s: Seq<char>, c: char, t: Seq<char>)
    requires
        is_separator(c),
    ensures
        pieces(s + seq![c] + t) == pieces(s) + pieces(t),
    decreases t.len(),
{
    let sn = s + seq![c];
    assert(sn.drop_last() =~= s);
    assert(sn.last() == c);
    if t.len() == 0 {
        assert(sn + t =~= sn);
        assert(pieces(t) =~= seq![Seq::<char>::empty()]);
        assert(pieces(sn) =~= pieces(s) + pieces(t));
    } else {
        let u = t.drop_last();
        let d = t.last();
        lemma_pieces_after_separator(s, c, u);
        assert((sn + t).drop_last() =~= sn + u);
        assert((sn + t).last() == d);
        lemma_pieces_nonempty(u);
        let p = pieces(s) + pieces(u);
        if is_separator(d) {
            assert(p.push(Seq::<char>::empty()) =~= pieces(s) + pieces(u).push(Seq::<char>::empty()));
        } else {
            let pu = pieces(u);
            assert(p.last() == pu.last());
            assert(p.update(p.len() - 1, p.last().push(d)) =~= pieces(s) + pu.update(
                pu.len() - 1,
                pu.last().push(d),
            ));
        }
    }
}

proof fn lemma_nonempty_trimmed_concat(p: Seq<Seq<char>>, q: Seq<Seq<char>>)
    ensures
        nonempty_trimmed(p + q) == nonempty_trimmed(p) + nonempty_trimmed(q),
    decreases q.len(),
{
    if q.len() == 0 {
        assert(p + q =~= p);
        assert(nonempty_trimmed(p) + nonempty_trimmed(q) =~= nonempty_trimmed(p));
    } else {
        lemma_nonempty_trimmed_concat(p, q.drop_last());
        assert((p + q).drop_last() =~= p + q.drop_last());
        assert((p + q).last() == q.last());
        let a = nonempty_trimmed(p);
        let b = nonempty_trimmed(q.drop_last());
        assert((a + b).push(trim(q.last())) =~= a + b.push(trim(q.last())));
    }
}

/// Two address lists joined by a line end, a comma or a semicolon hold the
/// entries of the first followed by those of the second.
pub proof fn lemma_entries_of_separated_lists(a: Seq<char>, c: char, b: Seq<char>)
    requires
        c == '\n' || c == ',' || c == ';',
    ensures
        entries(a + seq![c] + b) == entries(a) + entries(b),
{
    lemma_pieces_after_separator(a, c, b);
    lemma_nonempty_trimmed_concat(pieces(a), pieces(b));
}

/// Two address lists joined by a line end hold the entries of the first
/// followed by those of the second.
pub proof fn lemma_entries_of_joined_lists(a: Seq<char>, b: Seq<char>)
    ensures
        entries(a + seq!['\n'] + b) == entries(a) + entries(b),
{
    lemma_entries_of_separated_lists(a, '\n', b);
}

/// Only line ends, commas and semicolons separate entries: a text that holds
/// none of them is one entry, the text trimmed, unless it is all white
/// space, when it is none. So a host name such as `web-01.example.com`
/// stays whole.
pub proof fn lemma_unseparated_text_is_one_entry(t: Seq<char>)
    requires
        forall|k: int| 0 <= k < t.len() ==> t[k] != '\n' && t[k] != ',' && t[k] != ';',
    ensures
        trim(t).len() > 0 ==> entries(t) == seq![trim(t)],
        trim(t).len() == 0 ==> entries(t) == Seq::<Seq<char>>::empty(),
{
    assert(no_separator(t));
    lemma_pieces_append_plain(Seq::<char>::empty(), t);
    assert(Seq::<char>::empty() + t =~= t);
    assert(pieces(Seq::<char>::empty()) =~= seq![Seq::<char>::empty()]);
    assert(pieces(t) =~= seq![t]);
    let ps = seq![t];
    assert(ps.drop_last() =~= Seq::<Seq<char>>::empty());
    assert(ps.last() == t);
    assert(nonempty_trimmed(Seq::<Seq<char>>::empty()) == Seq::<Seq<char>>::empty());
    assert(nonempty_trimmed(ps.drop_last()) == Seq::<Seq<char>>::empty());
    if trim(t).len() > 0 {
        assert(nonempty_trimmed(ps) =~= seq![trim(t)]);
    } else {
        assert(nonempty_trimmed(ps) =~= Seq::<Seq<char>>::empty());
    }
}

} // verus!
