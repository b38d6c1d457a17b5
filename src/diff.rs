use vstd::prelude::*;

use crate::set::{EnvVars, Record};
use crate::text::{chars_lt, chars_of, lemma_lex_irreflexive, lemma_lex_total, lemma_lex_transitive, lex_lt};

verus! {

/// How a variable changed between two sets.
#[derive(Debug, Clone, Copy, PartialEq, Eq)]
pub enum DiffState {
    Unchanged,
    Modified,
    Added,
    Deleted,
}

/// One variable's change. `old_value` is absent exactly for `Added`,
/// `new_value` exactly for `Deleted`.
pub struct DiffEntry {
    pub name: String,
    pub state: DiffState,
    pub old_value: Option<String>,
    pub new_value: Option<String>,
}

/// A diff entry as plain values.
pub struct EntryModel {
    pub name: Seq<char>,
    pub state: DiffState,
    pub old_value: Option<Seq<char>>,
    pub new_value: Option<Seq<char>>,
}

/// An optional string as an optional character sequence.
pub open spec fn opt_view(o: Option<String>) -> Option<Seq<char>> {
    match o {
        Some(s) => Some(s@),
        None => None,
    }
}

impl View for DiffEntry {
    type V = EntryModel;

    open spec fn view(&self) -> EntryModel {
        EntryModel {
            name: self.name@,
            state: self.state,
            old_value: opt_view(self.old_value),
            new_value: opt_view(self.new_value),
        }
    }
}

/// The entries of `v` as plain values.
pub open spec fn models(v: Seq<DiffEntry>) -> Seq<EntryModel> {
    v.map_values(|e: DiffEntry| e@)
}

/// Each name of `s` with the value of its last record.
pub open spec fn last_values(s: Seq<Record>) -> Map<Seq<char>, Seq<char>>
    decreases s.len(),
{
    if s.len() == 0 {
        Map::empty()
    } else {
        last_values(s.drop_last()).insert(s.last().0, s.last().1)
    }
}

/// The entry for `name`, given the last values by name in the old and the new set.
pub open spec fn entry_for(
    name: Seq<char>,
    old: Map<Seq<char>, Seq<char>>,
    new: Map<Seq<char>, Seq<char>>,
) -> EntryModel {
    if new.contains_key(name) && old.contains_key(name) {
        EntryModel {
            name,
            state: if old[name] == new[name] {
                DiffState::Unchanged
            } else {
                DiffState::Modified
            },
            old_value: Some(old[name]),
            new_value: Some(new[name]),
        }
    } else if new.contains_key(name) {
        EntryModel { name, state: DiffState::Added, old_value: None, new_value: Some(new[name]) }
    } else {
        EntryModel { name, state: DiffState::Deleted, old_value: Some(old[name]), new_value: None }
    }
}

/// Names strictly ascend, so no name occurs twice.
pub open spec fn strictly_sorted(r: Seq<EntryModel>) -> bool {
    forall|i: int, j: int| 0 <= i < j < r.len() ==> lex_lt(#[trigger] r[i].name, #[trigger] r[j].name)
}

/// Some entry of `r` has this name.
pub open spec fn has_name(r: Seq<EntryModel>, name: Seq<char>) -> bool {
    exists|k: int| 0 <= k < r.len() && (#[trigger] r[k]).name == name
}

/// `r` is the diff for the last values `old` and `new`: sorted by name, one
/// entry for each name of either, each classified by `entry_for`.
pub open spec fn is_diff(
    r: Seq<EntryModel>,
    old: Map<Seq<char>, Seq<char>>,
    new: Map<Seq<char>, Seq<char>>,
) -> bool {
    &&& strictly_sorted(r)
    &&& forall|k: int|
        0 <= k < r.len() ==> (old.contains_key(#[trigger] r[k].name) || new.contains_key(r[k].name))
            && r[k] == entry_for(r[k].name, old, new)
    &&& forall|name: Seq<char>|
        (old.contains_key(name) || new.contains_key(name)) ==> #[trigger] has_name(r, name)
}

/// The values that an entry holds agree with its state.
pub open spec fn consistent(e: EntryModel) -> bool {
    match e.state {
        DiffState::Added => e.old_value is None && e.new_value is Some,
        DiffState::Deleted => e.old_value is Some && e.new_value is None,
        _ => e.old_value is Some && e.new_value is Some,
    }
}

/// `prefix`, then `name=value` and a line break.
pub open spec fn report_line(prefix: Seq<char>, name: Seq<char>, value: Seq<char>) -> Seq<char> {
    prefix + name + seq!['='] + value + seq!['\n']
}

/// The report lines of one entry: two spaces before an unchanged variable, `+ `
/// before an added one, `- ` before a deleted one, and for a modified one the
/// old value after `- ` followed by the new value after `+ `.
pub open spec fn report_of(e: EntryModel) -> Seq<char> {
    match e.state {
        DiffState::Unchanged => report_line(seq![' ', ' '], e.name, e.new_value->0),
        DiffState::Added => report_line(seq!['+', ' '], e.name, e.new_value->0),
        DiffState::Deleted => report_line(seq!['-', ' '], e.name, e.old_value->0),
        DiffState::Modified => report_line(seq!['-', ' '], e.name, e.old_value->0) + report_line(
            seq!['+', ' '],
            e.name,
            e.new_value->0,
        ),
    }
}

/// The report of a sequence of entries, in order.
pub open spec fn report_text(s: Seq<EntryModel>) -> Seq<char>
    decreases s.len(),
{
    if s.len() == 0 {
        Seq::empty()
    } else {
        report_text(s.drop_last()) + report_of(s.last())
    }
}

/// Where `key` stands among the sorted entries: the index of the first name
/// not before it, and whether that name is `key`.
fn locate(entries: &Vec<DiffEntry>, key: &Vec<char>) -> (r: (usize, bool))
    requires
        strictly_sorted(models(entries@)),
    ensures
        r.0 <= entries.len(),
        forall|k: int| 0 <= k < r.0 ==> lex_lt(#[trigger] entries@[k]@.name, key@),
        r.1 ==> r.0 < entries.len() && entries@[r.0 as int]@.name == key@,
        !r.1 ==> r.0 == entries.len() || lex_lt(key@, entries@[r.0 as int]@.name),
        !r.1 ==> !has_name(models(entries@), key@),
{
    let mut p: usize = 0;
    while p < entries.len()
        invariant
            p <= entries.len(),
            forall|k: int| 0 <= k < p ==> lex_lt(#[trigger] entries@[k]@.name, key@),
        ensures
            p == entries.len() || !lex_lt(entries@[p as int]@.name, key@),
        decreases entries.len() - p,
    {
        let name = chars_of(entries[p].name.as_str());
        if !chars_lt(&name, key) {
            break;
        }
        p = p + 1;
    }
    if p < entries.len() {
        let name = chars_of(entries[p].name.as_str());
        if chars_lt(key, &name) {
            proof {
                let s = models(entries@);
                assert forall|k: int| 0 <= k < s.len() implies (#[trigger] s[k]).name != key@ by {
                    assert(s[k] == entries@[k]@);
                    lemma_lex_irreflexive(key@);
                    if k > p {
                        lemma_lex_transitive(key@, s[p as int].name, s[k].name);
                    }
                }
            }
            (p, false)
        } else {
            proof {
                if name@ != key@ {
                    lemma_lex_total(name@, key@);
                }
            }
            (p, true)
        }
    } else {
        proof {
            let s = models(entries@);
            assert forall|k: int| 0 <= k < s.len() implies (#[trigger] s[k]).name != key@ by {
                assert(s[k] == entries@[k]@);
                lemma_lex_irreflexive(key@);
            }
        }
        (p, false)
    }
}

/// Puts `e` at the place that `locate` found for its name: over the entry
/// with that name, or before the first later one.
fn place(entries: &mut Vec<DiffEntry>, p: usize, found: bool, e: DiffEntry)
    requires
        strictly_sorted(models(old(entries)@)),
        p <= old(entries).len(),
        forall|k: int| 0 <= k < p ==> lex_lt(#[trigger] old(entries)@[k]@.name, e@.name),
        found ==> p < old(entries).len() && old(entries)@[p as int]@.name == e@.name,
        !found ==> p == old(entries).len() || lex_lt(e@.name, old(entries)@[p as int]@.name),
    ensures
        strictly_sorted(models(final(entries)@)),
        p < final(entries).len(),
        final(entries)@[p as int]@ == e@,
        final(entries).len() == old(entries).len() + if found { 0int } else { 1int },
        forall|k: int|
            0 <= k < final(entries).len() && k != p ==> (#[trigger] final(entries)@[k])@.name != e@.name
                && final(entries)@[k]@ == old(entries)@[if found || k < p { k } else { k - 1 }]@,
        forall|n: Seq<char>|
            has_name(models(old(entries)@), n) ==> #[trigger] has_name(models(final(entries)@), n),
        has_name(models(final(entries)@), e@.name),
{
    let ghost s = models(entries@);
    let ghost before = entries@;
    let ghost key = e@.name;
    proof {
        assert forall|k: int| 0 <= k < s.len() && (k != p || !found) implies s[k].name != key by {
            if k < p {
                lemma_lex_irreflexive(key);
            } else if found {
                lemma_lex_irreflexive(key);
                lemma_lex_irreflexive(s[k].name);
            } else {
                if k > p {
                    lemma_lex_transitive(key, s[p as int].name, s[k].name);
                }
                lemma_lex_irreflexive(key);
            }
        }
    }
    if found {
        entries.set(p, e);
    } else {
        entries.insert(p, e);
    }
    let ghost t = models(entries@);
    assert(t[p as int] == e@);
    let ghost idx = |k: int|
        if found || k < p {
            k
        } else {
            k - 1
        };
    assert forall|k: int| 0 <= k < t.len() && k != p implies t[k] == s[idx(k)] && entries@[k]
        == before[idx(k)] by {
        if found {
            assert(entries@ == before.update(p as int, e));
        } else {
            assert(entries@ == before.insert(p as int, e));
        }
    }
    assert forall|k: int| 0 <= k < t.len() && k != p implies (#[trigger] entries@[k])@.name != key
        && entries@[k]@ == before[if found || k < p {
        k
    } else {
        k - 1
    }]@ by {
        assert(t[k] == entries@[k]@);
        assert(s[idx(k)] == before[idx(k)]@);
    }
    assert forall|i: int, j: int| 0 <= i < j < t.len() implies lex_lt(
        #[trigger] t[i].name,
        #[trigger] t[j].name,
    ) by {
        if i == p {
            assert(t[j] == s[idx(j)]);
            if !found && j - 1 > p {
                lemma_lex_transitive(key, s[p as int].name, s[j - 1].name);
            }
            if found {
                assert(s[p as int].name == key);
            }
        } else if j == p {
            assert(t[i] == s[idx(i)]);
        } else {
            assert(t[i] == s[idx(i)]);
            assert(t[j] == s[idx(j)]);
        }
    }
    assert forall|n: Seq<char>| has_name(s, n) implies #[trigger] has_name(t, n) by {
        let j = choose|j: int| 0 <= j < s.len() && (#[trigger] s[j]).name == n;
        if found || j < p {
            if j == p {
                assert(t[p as int].name == n);
            } else {
                assert(t[j].name == n);
            }
        } else {
            assert(t[j + 1].name == n);
        }
    }
    assert(t[p as int].name == key);
}

/// After `place` put the entry for `key` under the updated last values, the
/// entries form the diff for those values.
proof fn lemma_place_keeps_diff(
    s: Seq<EntryModel>,
    t: Seq<EntryModel>,
    p: int,
    found: bool,
    key: Seq<char>,
    old: Map<Seq<char>, Seq<char>>,
    new: Map<Seq<char>, Seq<char>>,
    old2: Map<Seq<char>, Seq<char>>,
    new2: Map<Seq<char>, Seq<char>>,
)
    requires
        is_diff(s, old, new),
        strictly_sorted(t),
        0 <= p < t.len(),
        t[p] == entry_for(key, old2, new2),
        t.len() == s.len() + if found { 0int } else { 1int },
        forall|k: int|
            0 <= k < t.len() && k != p ==> (#[trigger] t[k]).name != key && t[k] == s[if found || k
                < p { k } else { k - 1 }],
        forall|n: Seq<char>| has_name(s, n) ==> #[trigger] has_name(t, n),
        has_name(t, key),
        old2.contains_key(key) || new2.contains_key(key),
        forall|n: Seq<char>| n != key ==> #[trigger] old2.contains_key(n) == old.contains_key(n),
        forall|n: Seq<char>| n != key ==> #[trigger] new2.contains_key(n) == new.contains_key(n),
        forall|n: Seq<char>| n != key && old.contains_key(n) ==> #[trigger] old2[n] == old[n],
        forall|n: Seq<char>| n != key && new.contains_key(n) ==> #[trigger] new2[n] == new[n],
    ensures
        is_diff(t, old2, new2),
{
    assert forall|k: int| 0 <= k < t.len() implies (old2.contains_key(#[trigger] t[k].name)
        || new2.contains_key(t[k].name)) && t[k] == entry_for(t[k].name, old2, new2) by {
        if k != p {
            let j = if found || k < p {
                k
            } else {
                k - 1
            };
            assert(s[j] == entry_for(s[j].name, old, new));
        }
    }
    assert forall|n: Seq<char>| (old2.contains_key(n) || new2.contains_key(n)) implies #[trigger] has_name(t, n) by {
        if n != key {
            assert(old2.contains_key(n) == old.contains_key(n));
            assert(new2.contains_key(n) == new.contains_key(n));
            assert(has_name(s, n));
        }
    }
}

/// Appends `prefix`, `name=value` and a line break to `text`.
fn append_line(text: &mut String, prefix: &str, name: &str, value: &str)
    ensures
        final(text)@ == old(text)@ + report_line(prefix@, name@, value@),
{
    text.append(prefix);
    text.append(name);
    text.append("=");
    text.append(value);
    text.append("\n");
    proof {
        reveal_strlit("=");
        reveal_strlit("\n");
        assert(final(text)@ =~= old(text)@ + report_line(prefix@, name@, value@));
    }
}

/// Renders entries as report lines, one for each entry and two for a modified one.
pub fn report(entries: &Vec<DiffEntry>) -> (r: String)
    requires
        forall|k: int| 0 <= k < entries.len() ==> consistent(#[trigger] entries@[k]@),
    ensures
        r@ == report_text(models(entries@)),
{
    let mut text = String::new();
    let mut i: usize = 0;
    proof {
        reveal_strlit("  ");
        reveal_strlit("+ ");
        reveal_strlit("- ");
    }
    while i < entries.len()
        invariant
            i <= entries.len(),
            forall|k: int| 0 <= k < entries.len() ==> consistent(#[trigger] entries@[k]@),
            text@ == report_text(models(entries@).take(i as int)),
            "  "@ == seq![' ', ' '],
            "+ "@ == seq!['+', ' '],
            "- "@ == seq!['-', ' '],
        decreases entries.len() - i,
    {
        let e = &entries[i];
        assert(consistent(e@));
        match e.state {
            DiffState::Unchanged => {
                append_line(&mut text, "  ", e.name.as_str(), e.new_value.as_ref().unwrap().as_str());
            },
            DiffState::Added => {
                append_line(&mut text, "+ ", e.name.as_str(), e.new_value.as_ref().unwrap().as_str());
            },
            DiffState::Deleted => {
                append_line(&mut text, "- ", e.name.as_str(), e.old_value.as_ref().unwrap().as_str());
            },
            DiffState::Modified => {
                append_line(&mut text, "- ", e.name.as_str(), e.old_value.as_ref().unwrap().as_str());
                append_line(&mut text, "+ ", e.name.as_str(), e.new_value.as_ref().unwrap().as_str());
            },
        }
        proof {
            let t = models(entries@).take(i + 1);
            assert(t.drop_last() =~= models(entries@).take(i as int));
            assert(t.last() == e@);
            assert(text@ =~= report_text(t));
        }
        i = i + 1;
    }
    assert(models(entries@).take(i as int) =~= models(entries@));
    text
}

/// Some record of `s` has this name.
pub open spec fn has_record(s: Seq<Record>, name: Seq<char>) -> bool {
    exists|i: int| 0 <= i < s.len() && (#[trigger] s[i]).0 == name
}

/// The last values hold exactly the names of the records.
pub proof fn lemma_last_values_names(s: Seq<Record>, name: Seq<char>)
    ensures
        last_values(s).contains_key(name) <==> has_record(s, name),
    decreases s.len(),
{
    if s.len() > 0 {
        let rest = s.drop_last();
        lemma_last_values_names(rest, name);
        if has_record(rest, name) {
            let i = choose|i: int| 0 <= i < rest.len() && (#[trigger] rest[i]).0 == name;
            assert(s[i] == rest[i]);
        }
        if has_record(s, name) && s.last().0 != name {
            let i = choose|i: int| 0 <= i < s.len() && (#[trigger] s[i]).0 == name;
            assert(rest[i] == s[i]);
        }
        if s.last().0 == name {
            assert(s[s.len() - 1].0 == name);
        }
    }
}

/// Each name of either set has exactly one entry in their diff, and each entry
/// names a variable of either set.
pub proof fn lemma_diff_total(r: Seq<EntryModel>, old: Seq<Record>, new: Seq<Record>, name: Seq<char>)
    requires
        is_diff(r, last_values(old), last_values(new)),
    ensures
        has_name(r, name) <==> (has_record(old, name) || has_record(new, name)),
        forall|i: int, j: int|
            0 <= i < r.len() && 0 <= j < r.len() && r[i].name == name && r[j].name == name ==> i == j,
{
    lemma_last_values_names(old, name);
    lemma_last_values_names(new, name);
    if has_name(r, name) {
        let k = choose|k: int| 0 <= k < r.len() && (#[trigger] r[k]).name == name;
        assert(last_values(old).contains_key(r[k].name) || last_values(new).contains_key(r[k].name));
    }
    assert forall|i: int, j: int|
        0 <= i < r.len() && 0 <= j < r.len() && r[i].name == name && r[j].name == name implies i
        == j by {
        if i < j {
            lemma_lex_irreflexive(name);
        } else if j < i {
            lemma_lex_irreflexive(name);
        }
    }
}

/// How a diff classifies each name: added when only the new set has it, deleted
/// when only the old set has it, unchanged when both have it with equal values
/// and modified when their values differ (where a name repeats within a set,
/// its last record's value).
pub proof fn lemma_diff_states(r: Seq<EntryModel>, old: Seq<Record>, new: Seq<Record>, k: int)
    requires
        is_diff(r, last_values(old), last_values(new)),
        0 <= k < r.len(),
    ensures
        r[k].state == DiffState::Added <==> !has_record(old, r[k].name) && has_record(new, r[k].name),
        r[k].state == DiffState::Deleted <==> has_record(old, r[k].name) && !has_record(new, r[k].name),
        r[k].state == DiffState::Unchanged <==> has_record(old, r[k].name) && has_record(new, r[k].name)
            && last_values(old)[r[k].name] == last_values(new)[r[k].name],
        r[k].state == DiffState::Modified <==> has_record(old, r[k].name) && has_record(new, r[k].name)
            && last_values(old)[r[k].name] != last_values(new)[r[k].name],
        consistent(r[k]),
{
    lemma_last_values_names(old, r[k].name);
    lemma_last_values_names(new, r[k].name);
}

/// A diff lists its entries in strictly ascending order of name.
pub proof fn lemma_diff_sorted(r: Seq<EntryModel>, old: Seq<Record>, new: Seq<Record>)
    requires
        is_diff(r, last_values(old), last_values(new)),
    ensures
        forall|i: int, j: int| 0 <= i < j < r.len() ==> lex_lt(#[trigger] r[i].name, #[trigger] r[j].name),
{
}

/// Compares two sets: one entry for each name of either, sorted by name. Where
/// a name repeats within a set, its last record counts.
pub fn diff(old: EnvVars, new: EnvVars) -> (r: Vec<DiffEntry>)
    ensures
        is_diff(models(r@), last_values(old@), last_values(new@)),
        forall|k: int| 0 <= k < r.len() ==> consistent(#[trigger] r@[k]@),
{
    let mut entries: Vec<DiffEntry> = Vec::new();
    let ghost none = Map::<Seq<char>, Seq<char>>::empty();
    let mut i: usize = 0;
    proof {
        assert(new@.take(0) =~= Seq::<Record>::empty());
        assert forall|n: Seq<char>| !(#[trigger] none.contains_key(n)) by {}
    }
    while i < new.len()
        invariant
            i <= new@.len(),
            none == Map::<Seq<char>, Seq<char>>::empty(),
            is_diff(models(entries@), none, last_values(new@.take(i as int))),
        decreases new@.len() - i,
    {
        let var = new.get(i);
        let key = chars_of(var.name());
        let (p, found) = locate(&entries, &key);
        let e = DiffEntry {
            name: String::from_str(var.name()),
            state: DiffState::Added,
            old_value: None,
            new_value: Some(String::from_str(var.value())),
        };
        let ghost s = models(entries@);
        place(&mut entries, p, found, e);
        proof {
            let t = new@.take(i + 1);
            assert(t.drop_last() =~= new@.take(i as int));
            assert(t.last() == var@);
            lemma_place_keeps_diff(s, models(entries@), p as int, found, key@, none, last_values(new@.take(i as int)), none, last_values(t));
        }
        i = i + 1;
    }
    assert(new@.take(i as int) =~= new@);
    let ghost fresh = last_values(new@);
    let mut j: usize = 0;
    assert(old@.take(0) =~= Seq::<Record>::empty());
    while j < old.len()
        invariant
            j <= old@.len(),
            fresh == last_values(new@),
            is_diff(models(entries@), last_values(old@.take(j as int)), fresh),
        decreases old@.len() - j,
    {
        let var = old.get(j);
        let key = chars_of(var.name());
        let (p, found) = locate(&entries, &key);
        let ghost s = models(entries@);
        let ghost gone = last_values(old@.take(j as int));
        let value = String::from_str(var.value());
        let e = if found {
            proof {
                assert(s[p as int] == entries@[p as int]@);
                assert(s[p as int] == entry_for(key@, gone, fresh));
            }
            match &entries[p].new_value {
                Some(current) => {
                    let state = if value == *current {
                        DiffState::Unchanged
                    } else {
                        DiffState::Modified
                    };
                    DiffEntry {
                        name: String::from_str(var.name()),
                        state,
                        old_value: Some(value),
                        new_value: Some(current.clone()),
                    }
                },
                None => DiffEntry {
                    name: String::from_str(var.name()),
                    state: DiffState::Deleted,
                    old_value: Some(value),
                    new_value: None,
                },
            }
        } else {
            proof {
                if fresh.contains_key(key@) || gone.contains_key(key@) {
                    assert(has_name(s, key@));
                }
            }
            DiffEntry {
                name: String::from_str(var.name()),
                state: DiffState::Deleted,
                old_value: Some(value),
                new_value: None,
            }
        };
        place(&mut entries, p, found, e);
        proof {
            let t = old@.take(j + 1);
            assert(t.drop_last() =~= old@.take(j as int));
            assert(t.last() == var@);
            lemma_place_keeps_diff(s, models(entries@), p as int, found, key@, gone, fresh, last_values(t), fresh);
        }
        j = j + 1;
    }
    assert(old@.take(j as int) =~= old@);
    assert forall|k: int| 0 <= k < entries.len() implies consistent(#[trigger] entries@[k]@) by {
        let m = models(entries@);
        assert(m[k] == entries@[k]@);
        assert(m[k] == entry_for(m[k].name, last_values(old@), last_values(new@)));
    }
    entries
}

} // verus!
