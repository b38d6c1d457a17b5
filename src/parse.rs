use vstd::prelude::*;

use crate::record::{valid_name, EnvEditError, EnvVar, SEPARATOR};
use crate::set::{
    insert_sorted, lemma_sort_by_name, lemma_sort_sorted, records_of, sort_by_name, sorted_by_name, text_of,
    EnvVars, Record,
};
use crate::text::{chars_of, find_char, find_from, lemma_find_from};

verus! {

/// A line without the carriage return that may end it.
pub open spec fn strip_cr(l: Seq<char>) -> Seq<char> {
    if l.len() > 0 && l.last() == '\r' {
        l.drop_last()
    } else {
        l
    }
}

/// The lines completed so far in `t`, and the unfinished line after them.
pub open spec fn scan_lines(t: Seq<char>) -> (Seq<Seq<char>>, Seq<char>)
    decreases t.len(),
{
    if t.len() == 0 {
        (Seq::empty(), Seq::empty())
    } else {
        let (done, cur) = scan_lines(t.drop_last());
        if t.last() == '\n' {
            (done.push(strip_cr(cur)), Seq::empty())
        } else {
            (done, cur.push(t.last()))
        }
    }
}

/// The lines of `t`: split at each line feed, each without the line feed or a
/// carriage return just before it; a last line without line feed counts when
/// it is not empty.
pub open spec fn lines_of(t: Seq<char>) -> Seq<Seq<char>> {
    let (done, cur) = scan_lines(t);
    if cur.len() == 0 {
        done
    } else {
        done.push(cur)
    }
}

/// Splits a line at every separator and keeps the first two segments as name
/// and value; `None` when the line holds no separator.
pub open spec fn split_line(l: Seq<char>) -> Option<Record> {
    let p1 = find_from(l, SEPARATOR, 0);
    if p1 >= l.len() {
        None
    } else {
        let p2 = find_from(l, SEPARATOR, p1 + 1);
        Some((l.subrange(0, p1), l.subrange(p1 + 1, p2)))
    }
}

/// The records of `lines` in order, or the error of the first line that fails.
pub open spec fn parse_records(lines: Seq<Seq<char>>) -> Result<Seq<Record>, EnvEditError>
    decreases lines.len(),
{
    if lines.len() == 0 {
        Ok(Seq::empty())
    } else {
        match parse_records(lines.drop_last()) {
            Err(e) => Err(e),
            Ok(rs) => match split_line(lines.last()) {
                None => Err(EnvEditError::MalformedLine { line: (lines.len() - 1) as usize }),
                Some(r) => if valid_name(r.0) {
                    Ok(rs.push(r))
                } else {
                    Err(EnvEditError::InvalidName)
                },
            },
        }
    }
}

/// What parsing the text `t` gives: its records sorted by name, or the first error.
pub open spec fn parse_text(t: Seq<char>) -> Result<Seq<Record>, EnvEditError> {
    match parse_records(lines_of(t)) {
        Ok(rs) => Ok(sort_by_name(rs)),
        Err(e) => Err(e),
    }
}

/// The completed lines only grow as the text grows.
proof fn lemma_scan_prefix(t: Seq<char>, i: int, j: int)
    requires
        0 <= i <= j <= t.len(),
    ensures
        scan_lines(t.take(i)).0.len() <= scan_lines(t.take(j)).0.len(),
        scan_lines(t.take(j)).0.take(scan_lines(t.take(i)).0.len() as int) == scan_lines(
            t.take(i),
        ).0,
    decreases j - i,
{
    let d = scan_lines(t.take(i)).0;
    if i == j {
        assert(d.take(d.len() as int) =~= d);
    } else {
        lemma_scan_prefix(t, i, j - 1);
        assert(t.take(j).drop_last() =~= t.take(j - 1));
        let d1 = scan_lines(t.take(j - 1)).0;
        let d2 = scan_lines(t.take(j)).0;
        if d2 != d1 {
            assert(d2.take(d.len() as int) =~= d1.take(d.len() as int));
        }
    }
}

/// The completed lines of a prefix of `t` begin the lines of `t`.
proof fn lemma_lines_prefix(t: Seq<char>, i: int)
    requires
        0 <= i <= t.len(),
    ensures
        scan_lines(t.take(i)).0.len() <= lines_of(t).len(),
        lines_of(t).take(scan_lines(t.take(i)).0.len() as int) == scan_lines(t.take(i)).0,
{
    lemma_scan_prefix(t, i, t.len() as int);
    assert(t.take(t.len() as int) =~= t);
    let d = scan_lines(t.take(i)).0;
    let full = scan_lines(t).0;
    if scan_lines(t).1.len() != 0 {
        assert(full.push(scan_lines(t).1).take(d.len() as int) =~= full.take(d.len() as int));
    }
}

/// Once a line fails, so does every longer run of lines, with the same error.
proof fn lemma_parse_error_stays(p: Seq<Seq<char>>, q: Seq<Seq<char>>)
    requires
        p.len() <= q.len(),
        q.take(p.len() as int) == p,
        parse_records(p) is Err,
    ensures
        parse_records(q) == parse_records(p),
    decreases q.len(),
{
    if q.len() == p.len() {
        assert(q =~= p);
    } else {
        assert(q.drop_last().take(p.len() as int) =~= q.take(p.len() as int));
        lemma_parse_error_stays(p, q.drop_last());
    }
}

/// A record can be written on one line and read back from it: no separator or
/// line feed in the name or the value, and no carriage return that ends the value.
pub open spec fn writable(r: Record) -> bool {
    &&& valid_name(r.0)
    &&& !r.1.contains(SEPARATOR)
    &&& !r.0.contains('\n')
    &&& !r.1.contains('\n')
    &&& (r.1.len() > 0 ==> r.1.last() != '\r')
}

/// Characters without line feed extend the unfinished line.
proof fn lemma_scan_append(a: Seq<char>, c: Seq<char>)
    requires
        !c.contains('\n'),
    ensures
        scan_lines(a + c) == (scan_lines(a).0, scan_lines(a).1 + c),
    decreases c.len(),
{
    if c.len() == 0 {
        assert(a + c =~= a);
        assert(scan_lines(a).1 + c =~= scan_lines(a).1);
    } else {
        let c0 = c.drop_last();
        assert(!c0.contains('\n')) by {
            if c0.contains('\n') {
                let k = choose|k: int| 0 <= k < c0.len() && c0[k] == '\n';
                assert(c[k] == '\n');
            }
        }
        lemma_scan_append(a, c0);
        assert((a + c).drop_last() =~= a + c0);
        assert((a + c).last() == c.last());
        assert(c.last() != '\n') by {
            assert(c[c.len() - 1] == c.last());
        }
        assert(scan_lines(a).1 + c0 + seq![c.last()] =~= scan_lines(a).1 + c);
    }
}

/// The text of written records consists of one line per record.
proof fn lemma_lines_of_text(s: Seq<Record>)
    requires
        forall|i: int| 0 <= i < s.len() ==> writable(#[trigger] s[i]),
    ensures
        scan_lines(text_of(s)) == (s.map_values(|r: Record| r.0 + seq![SEPARATOR] + r.1), Seq::<char>::empty()),
    decreases s.len(),
{
    if s.len() > 0 {
        let rest = s.drop_last();
        let r = s.last();
        assert(writable(s[s.len() - 1]));
        lemma_lines_of_text(rest);
        let body = r.0 + seq![SEPARATOR] + r.1;
        assert(!body.contains('\n')) by {
            if body.contains('\n') {
                let k = choose|k: int| 0 <= k < body.len() && body[k] == '\n';
                if k < r.0.len() {
                    assert(r.0[k] == '\n');
                } else if k > r.0.len() {
                    assert(r.1[k - r.0.len() - 1] == '\n');
                }
            }
        }
        lemma_scan_append(text_of(rest), body);
        assert(Seq::<char>::empty() + body =~= body);
        let t = text_of(s);
        assert(t =~= (text_of(rest) + body) + seq!['\n']);
        assert(t.drop_last() =~= text_of(rest) + body);
        assert(body.last() != '\r') by {
            if r.1.len() > 0 {
                assert(body.last() == r.1.last());
            } else {
                assert(body.last() == SEPARATOR);
            }
        }
        assert(strip_cr(body) == body);
        assert(rest.map_values(|r: Record| r.0 + seq![SEPARATOR] + r.1).push(body) =~= s.map_values(
            |r: Record| r.0 + seq![SEPARATOR] + r.1,
        ));
    }
}

/// A written record's line splits back into its name and value.
proof fn lemma_split_written(r: Record)
    requires
        writable(r),
    ensures
        split_line(r.0 + seq![SEPARATOR] + r.1) == Some(r),
{
    let l = r.0 + seq![SEPARATOR] + r.1;
    let n = r.0.len() as int;
    assert forall|m: int| 0 <= m < n implies l[m] != SEPARATOR by {
        assert(l[m] == r.0[m]);
    }
    lemma_find_from(l, SEPARATOR, 0, n);
    assert forall|m: int| n + 1 <= m < l.len() implies l[m] != SEPARATOR by {
        assert(l[m] == r.1[m - n - 1]);
    }
    lemma_find_from(l, SEPARATOR, n + 1, l.len() as int);
    assert(l.subrange(0, n) =~= r.0);
    assert(l.subrange(n + 1, l.len() as int) =~= r.1);
}

/// The lines of written records parse back into those records.
proof fn lemma_parse_written(s: Seq<Record>)
    requires
        forall|i: int| 0 <= i < s.len() ==> writable(#[trigger] s[i]),
    ensures
        parse_records(s.map_values(|r: Record| r.0 + seq![SEPARATOR] + r.1)) == Ok::<
            Seq<Record>,
            EnvEditError,
        >(s),
    decreases s.len(),
{
    if s.len() > 0 {
        let rest = s.drop_last();
        let lines = s.map_values(|r: Record| r.0 + seq![SEPARATOR] + r.1);
        lemma_parse_written(rest);
        assert(lines.drop_last() =~= rest.map_values(|r: Record| r.0 + seq![SEPARATOR] + r.1));
        assert(writable(s[s.len() - 1]));
        lemma_split_written(s.last());
        assert(lines.last() == s.last().0 + seq![SEPARATOR] + s.last().1);
        assert(valid_name(s.last().0));
        assert(rest.push(s.last()) =~= s);
    } else {
        assert(s.map_values(|r: Record| r.0 + seq![SEPARATOR] + r.1) =~= Seq::<Seq<char>>::empty());
        assert(s =~= Seq::<Record>::empty());
    }
}

/// Writing sorted records as text and parsing that text gives the same records
/// back, when each record can be written on one line.
pub proof fn lemma_round_trip(s: Seq<Record>)
    requires
        sorted_by_name(s),
        forall|i: int| 0 <= i < s.len() ==> writable(#[trigger] s[i]),
    ensures
        parse_text(text_of(s)) == Ok::<Seq<Record>, EnvEditError>(s),
{
    lemma_lines_of_text(s);
    lemma_parse_written(s);
    lemma_sort_sorted(s);
}

/// Parses the line `cs[start..end]` of `text`, whose index is `index`.
fn parse_line(text: &str, cs: &Vec<char>, start: usize, end: usize, index: usize) -> (r: Result<
    EnvVar,
    EnvEditError,
>)
    requires
        cs@ == text@,
        start <= end <= cs.len(),
    ensures
        match split_line(cs@.subrange(start as int, end as int)) {
            None => r == Err::<EnvVar, EnvEditError>(EnvEditError::MalformedLine { line: index }),
            Some(rec) => match r {
                Ok(v) => valid_name(rec.0) && v@ == rec,
                Err(e) => !valid_name(rec.0) && e == EnvEditError::InvalidName,
            },
        },
{
    let ghost l = cs@.subrange(start as int, end as int);
    let p1 = find_char(cs, SEPARATOR, start, end);
    proof {
        lemma_find_from(l, SEPARATOR, 0, p1 - start);
    }
    if p1 == end {
        return Err(EnvEditError::MalformedLine { line: index });
    }
    let p2 = find_char(cs, SEPARATOR, p1 + 1, end);
    proof {
        lemma_find_from(l, SEPARATOR, p1 + 1 - start, p2 - start);
    }
    let name = String::from_str(text.substring_char(start, p1));
    let value = String::from_str(text.substring_char(p1 + 1, p2));
    proof {
        assert(name@ =~= l.subrange(0, p1 - start));
        assert(value@ =~= l.subrange(p1 + 1 - start, p2 - start));
    }
    EnvVar::new(name, value)
}

impl EnvVars {
    /// Builds a set from text with one `name=value` per line: fails on the first
    /// line without separator or with an invalid name, otherwise keeps every
    /// line's record, sorted by name.
    pub fn from_text(text: &str) -> (r: Result<EnvVars, EnvEditError>)
        ensures
            match r {
                Ok(set) => parse_text(text@) == Ok::<Seq<Record>, EnvEditError>(set@) && sorted_by_name(
                    set@,
                ),
                Err(e) => parse_text(text@) == Err::<Seq<Record>, EnvEditError>(e),
            },
    {
        let cs = chars_of(text);
        let mut vars: Vec<EnvVar> = Vec::new();
        let ghost mut done: Seq<Seq<char>> = Seq::empty();
        let ghost mut rs: Seq<Record> = Seq::empty();
        let mut start: usize = 0;
        let mut line: usize = 0;
        let mut i: usize = 0;
        while i < cs.len()
            invariant
                cs@ == text@,
                start <= i <= cs.len(),
                line == done.len(),
                line <= i,
                scan_lines(cs@.take(i as int)) == (done, cs@.subrange(start as int, i as int)),
                parse_records(done) == Ok::<Seq<Record>, EnvEditError>(rs),
                records_of(vars@) == sort_by_name(rs),
            decreases cs.len() - i,
        {
            proof {
                let t = cs@.take(i + 1);
                assert(t.drop_last() =~= cs@.take(i as int));
                assert(t.last() == cs@[i as int]);
            }
            if cs[i] == '\n' {
                let end = if i > start && cs[i - 1] == '\r' {
                    i - 1
                } else {
                    i
                };
                let ghost l = cs@.subrange(start as int, end as int);
                proof {
                    let cur = cs@.subrange(start as int, i as int);
                    if end < i {
                        assert(cur.drop_last() =~= l);
                    } else {
                        assert(cur =~= l);
                    }
                    assert(strip_cr(cur) == l);
                    assert(done.push(l).drop_last() =~= done);
                }
                match parse_line(text, &cs, start, end, line) {
                    Ok(var) => {
                        proof {
                            let prev = rs;
                            rs = rs.push(var@);
                            done = done.push(l);
                            assert(rs.drop_last() =~= prev);
                        }
                        insert_sorted(&mut vars, var);
                    },
                    Err(e) => {
                        proof {
                            assert(parse_records(done.push(l)) == Err::<Seq<Record>, EnvEditError>(e));
                            assert(cs@.take(i + 1).drop_last() =~= cs@.take(i as int));
                            lemma_lines_prefix(cs@, i + 1);
                            lemma_parse_error_stays(done.push(l), lines_of(cs@));
                        }
                        return Err(e);
                    },
                }
                start = i + 1;
                line = line + 1;
            } else {
                proof {
                    assert(cs@.subrange(start as int, i + 1) =~= cs@.subrange(start as int, i as int).push(cs@[i as int]));
                }
            }
            i = i + 1;
        }
        assert(cs@.take(i as int) =~= cs@);
        if start < cs.len() {
            let ghost l = cs@.subrange(start as int, i as int);
            proof {
                assert(done.push(l).drop_last() =~= done);
            }
            match parse_line(text, &cs, start, i, line) {
                Ok(var) => {
                    proof {
                        let prev = rs;
                        rs = rs.push(var@);
                        assert(rs.drop_last() =~= prev);
                    }
                    insert_sorted(&mut vars, var);
                },
                Err(e) => {
                    return Err(e);
                },
            }
        }
        proof {
            lemma_sort_by_name(rs);
        }
        Ok(EnvVars::from_vars(vars))
    }
}

} // verus!
