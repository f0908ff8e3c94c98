//! Resources: the machines, people and tools that carry activities out.

use vstd::prelude::*;
use crate::collections::{texts, StringMap};
use crate::models::calendar::Calendar;

verus! {

/// Classification of a resource.
#[derive(Debug, Clone, PartialEq, Eq)]
pub enum ResourceType {
    /// Main processing resource (machine, operating room).
    Primary,
    /// Support resource (tool, fixture).
    Secondary,
    /// Human resource (operator, doctor, driver).
    Human,
    /// Depleting resource (raw material, energy budget).
    Consumable,
    /// Domain-specific type, named by a tag.
    Custom(String),
}

/// A resource that can be assigned to activities.
#[derive(Debug)]
pub struct Resource {
    /// Unique resource identifier.
    pub id: String,
    /// Human-readable name.
    pub name: String,
    /// Classification.
    pub resource_type: ResourceType,
    /// Number of units available at the same time.
    pub capacity: i32,
    /// Availability calendar, if any.
    pub calendar: Option<Calendar>,
    /// Names of the skills the resource has.
    pub skills: Vec<String>,
    /// Free-form metadata.
    pub attributes: StringMap<String>,
}

impl Clone for Resource {
    /// A copy that holds the same in every field.
    fn clone(&self) -> (r: Self)
        ensures
            r.id == self.id,
            r.name == self.name,
            r.resource_type == self.resource_type,
            r.capacity == self.capacity,
            r.calendar.is_some() == self.calendar.is_some(),
            self.calendar matches Some(c) ==> r.calendar.unwrap().id == c.id
                && r.calendar.unwrap().time_windows@ == c.time_windows@
                && r.calendar.unwrap().blocked_periods@ == c.blocked_periods@,
            forall|t: int| r.spec_is_available_at(t) == self.spec_is_available_at(t),
            texts(r.skills@) == texts(self.skills@),
            r.attributes@ == self.attributes@,
            r.attributes.keys() == self.attributes.keys(),
    {
        let skills = self.skills.clone();
        assert(texts(skills@) =~= texts(self.skills@));
        let resource_type = match &self.resource_type {
            ResourceType::Primary => ResourceType::Primary,
            ResourceType::Secondary => ResourceType::Secondary,
            ResourceType::Human => ResourceType::Human,
            ResourceType::Consumable => ResourceType::Consumable,
            ResourceType::Custom(tag) => ResourceType::Custom(tag.clone()),
        };
        let calendar = match &self.calendar {
            Some(c) => Some(c.clone()),
            None => None,
        };
        Resource {
            id: self.id.clone(),
            name: self.name.clone(),
            resource_type,
            capacity: self.capacity,
            calendar,
            skills,
            attributes: copy_attributes(&self.attributes),
        }
    }
}

/// The same attributes in a map of their own.
fn copy_attributes(attributes: &StringMap<String>) -> (out: StringMap<String>)
    ensures
        out@ == attributes@,
        out.keys() == attributes.keys(),
{
    let mut out: StringMap<String> = StringMap::new();
    let n = attributes.len();
    let ghost keys = attributes.keys();
    let mut i: usize = 0;
    while i < n
        invariant
            i <= n,
            n == keys.len(),
            keys == attributes.keys(),
            keys.no_duplicates(),
            out.keys() == keys.take(i as int),
            forall|j: int|
                0 <= j < i ==> out@.contains_key(#[trigger] keys[j]) && out@[keys[j]]
                    == attributes@[keys[j]],
            forall|k: Seq<char>| out@.contains_key(k) ==> keys.take(i as int).contains(k),
        decreases n - i,
    {
        let key = attributes.key_at(i).clone();
        let value = attributes.value_at(i).clone();
        let ghost before = out@;
        proof {
            if keys.take(i as int).contains(key@) {
                let j = choose|j: int| 0 <= j < i && keys.take(i as int)[j] == key@;
                assert(keys[j] == keys[i as int]);
            }
        }
        out.insert(key, value);
        proof {
            assert(out.keys() =~= keys.take(i as int + 1));
            assert forall|j: int| 0 <= j < i + 1 implies out@.contains_key(#[trigger] keys[j])
                && out@[keys[j]] == attributes@[keys[j]] by {
                if j < i {
                    assert(before.contains_key(keys[j]));
                    assert(keys[j] != keys[i as int]);
                }
            }
            assert forall|k: Seq<char>| out@.contains_key(k) implies keys.take(
                i as int + 1,
            ).contains(k) by {
                if k == keys[i as int] {
                    assert(keys.take(i as int + 1)[i as int] == k);
                } else {
                    assert(before.contains_key(k));
                    let j = choose|j: int| 0 <= j < i && keys.take(i as int)[j] == k;
                    assert(keys.take(i as int + 1)[j] == k);
                }
            }
        }
        i += 1;
    }
    proof {
        assert(keys.take(i as int) =~= keys);
        assert(out@ =~= attributes@) by {
            assert forall|k: Seq<char>| out@.contains_key(k) == attributes@.contains_key(k) by {
                if attributes@.contains_key(k) {
                    assert(keys.to_set().contains(k));
                    let j = choose|j: int| 0 <= j < keys.len() && keys[j] == k;
                    assert(out@.contains_key(keys[j]));
                }
                if out@.contains_key(k) {
                    assert(keys.contains(k));
                    assert(keys.to_set().contains(k));
                }
            }
            assert forall|k: Seq<char>| out@.contains_key(k) implies out@[k] == attributes@[k] by {
                let j = choose|j: int| 0 <= j < keys.len() && keys[j] == k;
                assert(out@.contains_key(keys[j]));
            }
        }
    }
    out
}

impl Resource {
    /// Whether the resource has the skill `name`.
    pub open spec fn spec_has_skill(&self, name: Seq<char>) -> bool {
        texts(self.skills@).contains(name)
    }

    /// Whether the resource is available at `t`: always without a calendar,
    /// else when the calendar says it is working time.
    pub open spec fn spec_is_available_at(&self, t: int) -> bool {
        match self.calendar {
            None => true,
            Some(cal) => cal.spec_is_working_time(t),
        }
    }

    /// A resource of the given type with capacity 1, no calendar and no skills.
    pub fn new(id: &str, resource_type: ResourceType) -> (r: Self)
        ensures
            r.id@ == id@,
            r.name@ == Seq::<char>::empty(),
            r.resource_type == resource_type,
            r.capacity == 1,
            r.calendar.is_none(),
            r.skills@ == Seq::<String>::empty(),
            r.attributes@ == Map::<Seq<char>, String>::empty(),
    {
        Resource {
            id: id.to_owned(),
            name: String::new(),
            resource_type,
            capacity: 1,
            calendar: None,
            skills: Vec::new(),
            attributes: StringMap::new(),
        }
    }

    /// A primary resource.
    pub fn primary(id: &str) -> (r: Self)
        ensures
            r.id@ == id@,
            r.name@ == Seq::<char>::empty(),
            r.resource_type == ResourceType::Primary,
            r.capacity == 1,
            r.calendar.is_none(),
            r.skills@ == Seq::<String>::empty(),
            r.attributes@ == Map::<Seq<char>, String>::empty(),
    {
        Resource::new(id, ResourceType::Primary)
    }

    /// A human resource.
    pub fn human(id: &str) -> (r: Self)
        ensures
            r.id@ == id@,
            r.name@ == Seq::<char>::empty(),
            r.resource_type == ResourceType::Human,
            r.capacity == 1,
            r.calendar.is_none(),
            r.skills@ == Seq::<String>::empty(),
            r.attributes@ == Map::<Seq<char>, String>::empty(),
    {
        Resource::new(id, ResourceType::Human)
    }

    /// A secondary resource.
    pub fn secondary(id: &str) -> (r: Self)
        ensures
            r.id@ == id@,
            r.name@ == Seq::<char>::empty(),
            r.resource_type == ResourceType::Secondary,
            r.capacity == 1,
            r.calendar.is_none(),
            r.skills@ == Seq::<String>::empty(),
            r.attributes@ == Map::<Seq<char>, String>::empty(),
    {
        Resource::new(id, ResourceType::Secondary)
    }

    /// Sets the name.
    pub fn with_name(self, name: &str) -> (r: Self)
        ensures
            r.name@ == name@,
            r == (Resource { name: r.name, ..self }),
    {
        let mut r = self;
        r.name = name.to_owned();
        r
    }

    /// Sets the capacity.
    pub fn with_capacity(self, capacity: i32) -> (r: Self)
        ensures
            r == (Resource { capacity, ..self }),
    {
        let mut r = self;
        r.capacity = capacity;
        r
    }

    /// Sets the availability calendar.
    pub fn with_calendar(self, calendar: Calendar) -> (r: Self)
        ensures
            r == (Resource { calendar: Some(calendar), ..self }),
    {
        let mut r = self;
        r.calendar = Some(calendar);
        r
    }

    /// Appends a skill.
    pub fn with_skill(self, name: &str) -> (r: Self)
        ensures
            texts(r.skills@) == texts(self.skills@).push(name@),
            r == (Resource { skills: r.skills, ..self }),
    {
        let mut r = self;
        r.skills.push(name.to_owned());
        assert(texts(r.skills@) =~= texts(self.skills@).push(name@));
        r
    }

    /// Sets a metadata attribute, replacing an earlier value for the same key.
    pub fn with_attribute(self, key: &str, value: &str) -> (r: Self)
        ensures
            r.attributes@.dom() == self.attributes@.dom().insert(key@),
            r.attributes@[key@]@ == value@,
            forall|k: Seq<char>|
                k != key@ && self.attributes@.contains_key(k) ==> #[trigger] r.attributes@[k]
                    == self.attributes@[k],
            r == (Resource { attributes: r.attributes, ..self }),
    {
        let mut r = self;
        r.attributes.insert(key.to_owned(), value.to_owned());
        r
    }

    /// Whether the resource has the skill `name`.
    pub fn has_skill(&self, name: &str) -> (b: bool)
        ensures
            b == self.spec_has_skill(name@),
    {
        let wanted = name.to_owned();
        let mut i: usize = 0;
        while i < self.skills.len()
            invariant
                i <= self.skills@.len(),
                wanted@ == name@,
                forall|j: int| 0 <= j < i ==> texts(self.skills@)[j] != name@,
            decreases self.skills@.len() - i,
        {
            if self.skills[i] == wanted {
                assert(texts(self.skills@)[i as int] == name@);
                return true;
            }
            i += 1;
        }
        false
    }

    /// Whether the resource is available at `time_ms`.
    pub fn is_available_at(&self, time_ms: i64) -> (b: bool)
        ensures
            b == self.spec_is_available_at(time_ms as int),
    {
        match &self.calendar {
            None => true,
            Some(cal) => cal.is_working_time(time_ms),
        }
    }
}

} // verus!
