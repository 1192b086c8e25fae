//! Priorities of tasks by the section they stand in.
use vstd::prelude::*;

use crate::taskwarrior::Priority;

verus! {

/// First value paired with key `k` in `s`.
pub open spec fn first_match<V>(s: Seq<(Seq<char>, V)>, k: Seq<char>) -> Option<V>
    decreases s.len(),
{
    if s.len() == 0 {
        None
    } else if s[0].0 == k {
        Some(s[0].1)
    } else {
        first_match(s.drop_first(), k)
    }
}

/// Mapping from section name to priority, with a priority for the sections
/// it does not name.
#[derive(Clone, Debug)]
pub struct SectionPriorityMapping {
    pub default_mapping: Option<Priority>,
    /// Section names with their priorities; where a name occurs twice the
    /// first entry counts.
    pub mapping: Vec<(String, Priority)>,
}

impl SectionPriorityMapping {
    /// Entries with the section names as character sequences.
    pub open spec fn entries(&self) -> Seq<(Seq<char>, Priority)> {
        self.mapping@.map_values(|e: (String, Priority)| (e.0@, e.1))
    }

    /// Priority of the tasks of section `section_name`.
    pub open spec fn priority_of(&self, section_name: Seq<char>) -> Option<Priority> {
        match first_match(self.entries(), section_name) {
            Some(p) => Some(p),
            None => self.default_mapping,
        }
    }

    /// Priority of the tasks of a section: its own entry, else the default.
    pub fn get_mapping(&self, section_name: &str) -> (r: Option<Priority>)
        ensures
            r == self.priority_of(section_name@),
    {
        let key = String::from_str(section_name);
        let mut i: usize = 0;
        assert(self.entries().skip(0) =~= self.entries());
        while i < self.mapping.len()
            invariant
                0 <= i <= self.mapping@.len(),
                key@ == section_name@,
                first_match(self.entries(), section_name@) == first_match(
                    self.entries().skip(i as int),
                    section_name@,
                ),
            decreases self.mapping@.len() - i,
        {
            let ghost rest = self.entries().skip(i as int);
            assert(rest[0] == (self.mapping@[i as int].0@, self.mapping@[i as int].1));
            if self.mapping[i].0 == key {
                return Some(self.mapping[i].1);
            }
            assert(rest.drop_first() =~= self.entries().skip(i + 1));
            i = i + 1;
        }
        self.default_mapping
    }
}

} // verus!
