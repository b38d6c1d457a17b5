use vstd::prelude::*;

use crate::record::{valid_name, EnvEditError, EnvVar};
use crate::text::{chars_lt, chars_of, lemma_lex_asymmetric, lemma_lex_le_transitive, lex_lt};

verus! {

/// A variable as a pair of name and value.
pub type Record = (Seq<char>, Seq<char>);

/// The variables of `vars` as records.
pub open spec fn records_of(vars: Seq<EnvVar>) -> Seq<Record> {
    vars.map_values(|v: EnvVar| v@)
}

/// Pairs of strings as records.
pub open spec fn pairs_of(pairs: Seq<(String, String)>) -> Seq<Record> {
    pairs.map_values(|p: (String, String)| (p.0@, p.1@))
}

/// No record's name holds the separator.
pub open spec fn all_names_valid(s: Seq<Record>) -> bool {
    forall|i: int| 0 <= i < s.len() ==> valid_name(#[trigger] s[i].0)
}

/// Places `x` after every record whose name does not come after its own.
pub open spec fn insert_by_name(s: Seq<Record>, x: Record) -> Seq<Record>
    decreases s.len(),
{
    if s.len() == 0 {
        seq![x]
    } else if lex_lt(x.0, s.last().0) {
        insert_by_name(s.drop_last(), x).push(s.last())
    } else {
        s.push(x)
    }
}

/// `s` sorted by name; records with equal names keep their relative order.
pub open spec fn sort_by_name(s: Seq<Record>) -> Seq<Record>
    decreases s.len(),
{
    if s.len() == 0 {
        s
    } else {
        insert_by_name(sort_by_name(s.drop_last()), s.last())
    }
}

/// No record comes after a later one by name.
pub open spec fn sorted_by_name(s: Seq<Record>) -> bool {
    forall|i: int, j: int| 0 <= i < j < s.len() ==> !lex_lt(#[trigger] s[j].0, #[trigger] s[i].0)
}

/// No record of `insert_by_name(s, x)` comes after a name `b` that none of
/// `s` nor `x` comes after.
proof fn lemma_insert_bounded(s: Seq<Record>, x: Record, b: Seq<char>)
    requires
        forall|j: int| 0 <= j < s.len() ==> !lex_lt(b, #[trigger] s[j].0),
        !lex_lt(b, x.0),
    ensures
        forall|j: int|
            0 <= j < insert_by_name(s, x).len() ==> !lex_lt(b, #[trigger] insert_by_name(s, x)[j].0),
    decreases s.len(),
{
    let r = insert_by_name(s, x);
    if s.len() == 0 {
        assert(r =~= seq![x]);
    } else if lex_lt(x.0, s.last().0) {
        let rest = insert_by_name(s.drop_last(), x);
        lemma_insert_bounded(s.drop_last(), x, b);
        assert forall|j: int| 0 <= j < r.len() implies !lex_lt(b, #[trigger] r[j].0) by {
            if j < rest.len() {
                assert(r[j] == rest[j]);
            }
        }
    } else {
        assert forall|j: int| 0 <= j < r.len() implies !lex_lt(b, #[trigger] r[j].0) by {
            if j < s.len() {
                assert(r[j] == s[j]);
            }
        }
    }
}

/// Inserting by name adds one record and keeps a sorted sequence sorted.
proof fn lemma_insert_by_name(s: Seq<Record>, x: Record)
    ensures
        insert_by_name(s, x).len() == s.len() + 1,
        insert_by_name(s, x).to_multiset() == s.to_multiset().insert(x),
        sorted_by_name(s) ==> sorted_by_name(insert_by_name(s, x)),
    decreases s.len(),
{
    broadcast use vstd::seq_lib::group_to_multiset_ensures;

    if s.len() == 0 {
        assert(insert_by_name(s, x) =~= s.push(x));
    } else if lex_lt(x.0, s.last().0) {
        let rest = s.drop_last();
        lemma_insert_by_name(rest, x);
        assert(rest.push(s.last()) =~= s);
        if sorted_by_name(s) {
            lemma_lex_asymmetric(x.0, s.last().0);
            lemma_insert_bounded(rest, x, s.last().0);
        }
    } else if sorted_by_name(s) {
        assert forall|j: int| 0 <= j < s.len() implies !lex_lt(x.0, #[trigger] s[j].0) by {
            if j < s.len() - 1 {
                lemma_lex_le_transitive(s[j].0, s.last().0, x.0);
            }
        }
    }
}

/// Sorting by name keeps every record, once each, and leaves them sorted.
pub proof fn lemma_sort_by_name(s: Seq<Record>)
    ensures
        sort_by_name(s).len() == s.len(),
        sort_by_name(s).to_multiset() == s.to_multiset(),
        sorted_by_name(sort_by_name(s)),
    decreases s.len(),
{
    broadcast use vstd::seq_lib::group_to_multiset_ensures;

    if s.len() > 0 {
        lemma_sort_by_name(s.drop_last());
        lemma_insert_by_name(sort_by_name(s.drop_last()), s.last());
        assert(s.drop_last().push(s.last()) =~= s);
    }
}

/// Sorting a sorted sequence changes nothing.
pub proof fn lemma_sort_sorted(s: Seq<Record>)
    requires
        sorted_by_name(s),
    ensures
        sort_by_name(s) == s,
    decreases s.len(),
{
    if s.len() > 0 {
        let rest = s.drop_last();
        assert(sorted_by_name(rest));
        lemma_sort_sorted(rest);
        if rest.len() > 0 {
            assert(rest.last() == s[s.len() - 2]);
        }
        assert(rest.push(s.last()) =~= s);
    }
}

/// Inserts `var` into `vars` where `insert_by_name` places it.
pub(crate) fn insert_sorted(vars: &mut Vec<EnvVar>, var: EnvVar)
    ensures
        records_of(final(vars)@) == insert_by_name(records_of(old(vars)@), var@),
{
    let ghost s = records_of(vars@);
    let key = chars_of(var.name());
    let mut p: usize = vars.len();
    proof {
        assert(s.take(p as int) =~= s);
        assert(s.skip(p as int) =~= Seq::<Record>::empty());
        assert(insert_by_name(s, var@) + Seq::<Record>::empty() =~= insert_by_name(s, var@));
    }
    while p > 0
        invariant
            p <= vars.len(),
            records_of(vars@) == s,
            key@ == var@.0,
            insert_by_name(s, var@) == insert_by_name(s.take(p as int), var@) + s.skip(p as int),
        ensures
            p == 0 || !lex_lt(var@.0, s[p - 1].0),
        decreases p,
    {
        let other = chars_of(vars[p - 1].name());
        if !chars_lt(&key, &other) {
            break;
        }
        proof {
            let t = s.take(p as int);
            assert(t.drop_last() =~= s.take(p - 1));
            assert(t.last() == s[p - 1]);
            assert(s.skip(p - 1) =~= seq![s[p - 1]] + s.skip(p as int));
            assert(insert_by_name(t, var@) + s.skip(p as int) =~= insert_by_name(s.take(p - 1), var@)
                + s.skip(p - 1));
        }
        p = p - 1;
    }
    proof {
        let t = s.take(p as int);
        if p == 0 {
            assert(insert_by_name(t, var@) =~= seq![var@]);
        } else {
            assert(t.last() == s[p - 1]);
            assert(t.drop_last().push(t.last()) =~= t);
        }
    }
    let ghost before = vars@;
    vars.insert(p, var);
    proof {
        assert(vars@ == before.insert(p as int, var));
        assert(records_of(vars@) =~= insert_by_name(s.take(p as int), var@) + s.skip(p as int));
    }
}

/// The line that stands for one record in the text form.
pub open spec fn line_of(r: Record) -> Seq<char> {
    r.0 + seq!['='] + r.1 + seq!['\n']
}

/// The text form of a sequence of records: one line each, in order.
pub open spec fn text_of(s: Seq<Record>) -> Seq<char>
    decreases s.len(),
{
    if s.len() == 0 {
        Seq::empty()
    } else {
        text_of(s.drop_last()) + line_of(s.last())
    }
}

/// A set of environment variables, sorted by name. Names may repeat.
pub struct EnvVars {
    vars: Vec<EnvVar>,
}

impl View for EnvVars {
    type V = Seq<Record>;

    closed spec fn view(&self) -> Seq<Record> {
        records_of(self.vars@)
    }
}

impl EnvVars {
    #[verifier::type_invariant]
    spec fn inv(&self) -> bool {
        sorted_by_name(records_of(self.vars@))
    }

    /// Builds a set from pairs of name and value. Fails on the first name that
    /// holds the separator; otherwise keeps every pair, sorted by name.
    pub fn from_pairs(pairs: Vec<(String, String)>) -> (r: Result<EnvVars, EnvEditError>)
        ensures
            match r {
                Ok(set) => {
                    &&& all_names_valid(pairs_of(pairs@))
                    &&& set@ == sort_by_name(pairs_of(pairs@))
                    &&& set@.len() == pairs@.len()
                    &&& set@.to_multiset() == pairs_of(pairs@).to_multiset()
                    &&& sorted_by_name(set@)
                },
                Err(e) => !all_names_valid(pairs_of(pairs@)) && e == EnvEditError::InvalidName,
            },
    {
        let ghost input = pairs_of(pairs@);
        let mut vars: Vec<EnvVar> = Vec::new();
        let mut i: usize = 0;
        while i < pairs.len()
            invariant
                i <= pairs.len(),
                input == pairs_of(pairs@),
                all_names_valid(input.take(i as int)),
                records_of(vars@) == sort_by_name(input.take(i as int)),
            decreases pairs.len() - i,
        {
            let name = pairs[i].0.clone();
            let value = pairs[i].1.clone();
            match EnvVar::new(name, value) {
                Ok(var) => {
                    proof {
                        let t = input.take(i + 1);
                        assert(t.drop_last() =~= input.take(i as int));
                        assert(t.last() == var@);
                    }
                    insert_sorted(&mut vars, var);
                },
                Err(e) => {
                    assert(!valid_name(input[i as int].0));
                    return Err(e);
                },
            }
            i = i + 1;
        }
        assert(input.take(i as int) =~= input);
        proof {
            lemma_sort_by_name(input);
        }
        Ok(EnvVars { vars })
    }

    /// The text form: `name=value` and a line break for each variable, in order.
    pub fn to_text(&self) -> (r: String)
        ensures
            r@ == text_of(self@),
            sorted_by_name(self@),
    {
        proof {
            use_type_invariant(self);
        }
        let mut text = String::new();
        let mut i: usize = 0;
        while i < self.vars.len()
            invariant
                i <= self.vars.len(),
                text@ == text_of(records_of(self.vars@).take(i as int)),
            decreases self.vars.len() - i,
        {
            let var = &self.vars[i];
            text.append(var.name());
            text.append("=");
            text.append(var.value());
            text.append("\n");
            proof {
                reveal_strlit("=");
                reveal_strlit("\n");
                let t = records_of(self.vars@).take(i + 1);
                assert(t.drop_last() =~= records_of(self.vars@).take(i as int));
                assert(text@ =~= text_of(t));
            }
            i = i + 1;
        }
        assert(records_of(self.vars@).take(i as int) =~= records_of(self.vars@));
        text
    }

    /// Wraps variables that are already sorted by name.
    pub(crate) fn from_vars(vars: Vec<EnvVar>) -> (r: EnvVars)
        requires
            sorted_by_name(records_of(vars@)),
        ensures
            r@ == records_of(vars@),
    {
        EnvVars { vars }
    }

    /// The number of variables.
    pub fn len(&self) -> (r: usize)
        ensures
            r == self@.len(),
    {
        self.vars.len()
    }

    /// The variable at position `i`.
    pub fn get(&self, i: usize) -> (r: &EnvVar)
        requires
            i < self@.len(),
        ensures
            r@ == self@[i as int],
    {
        &self.vars[i]
    }
}

} // verus!
