use vstd::prelude::*;

use crate::error::Error;

verus! {

/// The five rule sets of a user's push rules.
#[derive(Clone, Copy, Debug, PartialEq, Eq, Structural)]
pub enum RuleKind {
    Override,
    Underride,
    Sender,
    Room,
    Content,
}

/// One push rule. Actions and conditions are kept as JSON bytes.
pub struct PushRule {
    pub rule_id: String,
    pub enabled: bool,
    pub default: bool,
    pub actions: Vec<u8>,
    pub conditions: Vec<u8>,
    pub pattern: Option<String>,
}

/// The position of the first rule with the given id.
pub open spec fn first_index(rules: Seq<PushRule>, id: Seq<char>) -> Option<int> {
    if exists|i: int| 0 <= i < rules.len() && rules[i].rule_id@ == id {
        Some(choose|i: int| 0 <= i < rules.len() && rules[i].rule_id@ == id
            && forall|j: int| 0 <= j < i ==> rules[j].rule_id@ != id)
    } else {
        None
    }
}

/// No two rules share an id.
pub open spec fn unique_ids(rules: Seq<PushRule>) -> bool {
    forall|i: int, j: int| 0 <= i < rules.len() && 0 <= j < rules.len() && i != j ==> rules[i].rule_id@ != rules[j].rule_id@
}

/// The first position `i` holds `id`, and no position before it does.
pub open spec fn is_first(rules: Seq<PushRule>, id: Seq<char>, i: int) -> bool {
    0 <= i < rules.len() && rules[i].rule_id@ == id && forall|j: int| 0 <= j < i ==> rules[j].rule_id@ != id
}

proof fn lemma_first_index(rules: Seq<PushRule>, id: Seq<char>, i: int)
    requires
        is_first(rules, id, i),
    ensures
        first_index(rules, id) == Some(i),
{
    let k = choose|k: int| 0 <= k < rules.len() && rules[k].rule_id@ == id
        && forall|j: int| 0 <= j < k ==> rules[j].rule_id@ != id;
    if k < i {
        assert(rules[k].rule_id@ != id);
    }
    if i < k {
        assert(rules[i].rule_id@ != id);
    }
}

/// The position of the first rule with the given id.
pub fn find_rule(rules: &Vec<PushRule>, id: &String) -> (r: Option<usize>)
    ensures
        r.is_none() ==> first_index(rules@, id@).is_none(),
        r.is_some() ==> first_index(rules@, id@) == Some(r.unwrap() as int),
        r.is_some() ==> is_first(rules@, id@, r.unwrap() as int),
{
    let mut i: usize = 0;
    while i < rules.len()
        invariant
            i <= rules@.len(),
            forall|j: int| 0 <= j < i ==> rules@[j].rule_id@ != id@,
        decreases rules@.len() - i,
    {
        if rules[i].rule_id == *id {
            proof {
                lemma_first_index(rules@, id@, i as int);
            }
            return Some(i);
        }
        i = i + 1;
    }
    None
}

/// Replaces the rule with the same id, or adds the rule at the end.
pub fn upsert_rule(rules: &mut Vec<PushRule>, rule: PushRule)
    requires
        unique_ids(old(rules)@),
    ensures
        unique_ids(final(rules)@),
        match first_index(old(rules)@, rule.rule_id@) {
            Some(i) => final(rules)@ == old(rules)@.update(i, rule),
            None => final(rules)@ == old(rules)@.push(rule),
        },
{
    let ghost before = rules@;
    match find_rule(rules, &rule.rule_id) {
        Some(i) => {
            rules.set(i, rule);
            proof {
                assert forall|x: int, y: int| 0 <= x < rules@.len() && 0 <= y < rules@.len() && x != y
                    implies rules@[x].rule_id@ != rules@[y].rule_id@ by {
                    if x != i && y != i {
                        assert(rules@[x] == before[x] && rules@[y] == before[y]);
                    } else if x == i {
                        assert(rules@[y] == before[y]);
                    } else {
                        assert(rules@[x] == before[x]);
                    }
                }
            }
        },
        None => {
            rules.push(rule);
            proof {
                let n = before.len() as int;
                assert forall|x: int, y: int| 0 <= x < rules@.len() && 0 <= y < rules@.len() && x != y
                    implies rules@[x].rule_id@ != rules@[y].rule_id@ by {
                    if x < n && y < n {
                        assert(rules@[x] == before[x] && rules@[y] == before[y]);
                    } else if x < n {
                        assert(rules@[x] == before[x]);
                        assert(before[x].rule_id@ != rule.rule_id@);
                    } else if y < n {
                        assert(rules@[y] == before[y]);
                        assert(before[y].rule_id@ != rule.rule_id@);
                    }
                }
            }
        },
    }
}

/// Removes the first rule with the given id; tells whether there was one.
pub fn remove_rule(rules: &mut Vec<PushRule>, id: &String) -> (found: bool)
    requires
        unique_ids(old(rules)@),
    ensures
        unique_ids(final(rules)@),
        forall|j: int| 0 <= j < final(rules)@.len() ==> (#[trigger] final(rules)@[j]).rule_id@ != id@,
        found == first_index(old(rules)@, id@).is_some(),
        match first_index(old(rules)@, id@) {
            Some(i) => final(rules)@ == old(rules)@.remove(i),
            None => final(rules)@ == old(rules)@,
        },
{
    let ghost before = rules@;
    match find_rule(rules, id) {
        Some(i) => {
            rules.remove(i);
            proof {
                assert forall|x: int| 0 <= x < rules@.len() implies #[trigger] rules@[x] == before[if x >= i { x + 1 } else { x }] by {}
                assert forall|x: int, y: int| 0 <= x < rules@.len() && 0 <= y < rules@.len() && x != y
                    implies rules@[x].rule_id@ != rules@[y].rule_id@ by {
                    assert(rules@[x] == before[if x >= i { x + 1 } else { x }]);
                    assert(rules@[y] == before[if y >= i { y + 1 } else { y }]);
                }
                assert forall|j: int| 0 <= j < rules@.len() implies (#[trigger] rules@[j]).rule_id@ != id@ by {
                    let b = if j >= i { j + 1 } else { j };
                    assert(rules@[j] == before[b]);
                    assert(b != i);
                }
            }
            true
        },
        None => false,
    }
}

/// Gives the first rule with the given id new actions; tells whether there was one.
pub fn set_rule_actions(rules: &mut Vec<PushRule>, id: &String, actions: Vec<u8>) -> (found: bool)
    requires
        unique_ids(old(rules)@),
    ensures
        unique_ids(final(rules)@),
        found == first_index(old(rules)@, id@).is_some(),
        final(rules)@.len() == old(rules)@.len(),
        match first_index(old(rules)@, id@) {
            Some(i) => {
                &&& forall|j: int| 0 <= j < old(rules)@.len() && j != i ==> #[trigger] final(rules)@[j] == old(rules)@[j]
                &&& final(rules)@[i].actions@ == actions@
                &&& final(rules)@[i].rule_id == old(rules)@[i].rule_id
                &&& final(rules)@[i].enabled == old(rules)@[i].enabled
                &&& final(rules)@[i].default == old(rules)@[i].default
                &&& final(rules)@[i].conditions == old(rules)@[i].conditions
                &&& final(rules)@[i].pattern == old(rules)@[i].pattern
            },
            None => final(rules)@ == old(rules)@,
        },
{
    match find_rule(rules, id) {
        Some(i) => {
            let mut rule = rules.remove(i);
            rule.actions = actions;
            rules.insert(i, rule);
            proof {
                assert forall|j: int| 0 <= j < old(rules)@.len() && j != i implies #[trigger] rules@[j] == old(rules)@[j] by {
                    if j < i {
                        assert(rules@[j] == old(rules)@[j]);
                    } else {
                        assert(rules@[j] == old(rules)@.remove(i as int)[j - 1]);
                    }
                }
                assert forall|x: int, y: int| 0 <= x < rules@.len() && 0 <= y < rules@.len() && x != y
                    implies rules@[x].rule_id@ != rules@[y].rule_id@ by {
                    assert(rules@[x].rule_id@ == old(rules)@[x].rule_id@);
                    assert(rules@[y].rule_id@ == old(rules)@[y].rule_id@);
                }
            }
            true
        },
        None => false,
    }
}

/// Enables or disables the first rule with the given id; tells whether there was one.
pub fn set_rule_enabled(rules: &mut Vec<PushRule>, id: &String, enabled: bool) -> (found: bool)
    requires
        unique_ids(old(rules)@),
    ensures
        unique_ids(final(rules)@),
        found == first_index(old(rules)@, id@).is_some(),
        final(rules)@.len() == old(rules)@.len(),
        match first_index(old(rules)@, id@) {
            Some(i) => {
                &&& forall|j: int| 0 <= j < old(rules)@.len() && j != i ==> #[trigger] final(rules)@[j] == old(rules)@[j]
                &&& final(rules)@[i].enabled == enabled
                &&& final(rules)@[i].rule_id == old(rules)@[i].rule_id
                &&& final(rules)@[i].actions == old(rules)@[i].actions
                &&& final(rules)@[i].default == old(rules)@[i].default
                &&& final(rules)@[i].conditions == old(rules)@[i].conditions
                &&& final(rules)@[i].pattern == old(rules)@[i].pattern
            },
            None => final(rules)@ == old(rules)@,
        },
{
    match find_rule(rules, id) {
        Some(i) => {
            let mut rule = rules.remove(i);
            rule.enabled = enabled;
            rules.insert(i, rule);
            proof {
                assert forall|j: int| 0 <= j < old(rules)@.len() && j != i implies #[trigger] rules@[j] == old(rules)@[j] by {
                    if j < i {
                        assert(rules@[j] == old(rules)@[j]);
                    } else {
                        assert(rules@[j] == old(rules)@.remove(i as int)[j - 1]);
                    }
                }
                assert forall|x: int, y: int| 0 <= x < rules@.len() && 0 <= y < rules@.len() && x != y
                    implies rules@[x].rule_id@ != rules@[y].rule_id@ by {
                    assert(rules@[x].rule_id@ == old(rules)@[x].rule_id@);
                    assert(rules@[y].rule_id@ == old(rules)@[y].rule_id@);
                }
            }
            true
        },
        None => false,
    }
}

/// A user's push rules, one list per kind.
pub struct Ruleset {
    pub override_: Vec<PushRule>,
    pub underride: Vec<PushRule>,
    pub sender: Vec<PushRule>,
    pub room: Vec<PushRule>,
    pub content: Vec<PushRule>,
}

impl Ruleset {
    /// Within each kind, no two rules share an id.
    pub open spec fn wf(&self) -> bool {
        forall|k: RuleKind| #[trigger] unique_ids(self.of(k))
    }

    /// Whether rule ids are unique within each kind.
    pub fn has_unique_ids(&self) -> (r: bool)
        ensures
            r == self.wf(),
    {
        let a = ids_unique(&self.override_);
        let b = ids_unique(&self.underride);
        let c = ids_unique(&self.sender);
        let d = ids_unique(&self.room);
        let e = ids_unique(&self.content);
        proof {
            if !(a && b && c && d && e) {
                if !a { assert(!unique_ids(self.of(RuleKind::Override))); }
                if !b { assert(!unique_ids(self.of(RuleKind::Underride))); }
                if !c { assert(!unique_ids(self.of(RuleKind::Sender))); }
                if !d { assert(!unique_ids(self.of(RuleKind::Room))); }
                if !e { assert(!unique_ids(self.of(RuleKind::Content))); }
            } else {
                assert forall|k: RuleKind| #[trigger] unique_ids(self.of(k)) by {
                    match k {
                        RuleKind::Override => {},
                        RuleKind::Underride => {},
                        RuleKind::Sender => {},
                        RuleKind::Room => {},
                        RuleKind::Content => {},
                    }
                }
            }
        }
        a && b && c && d && e
    }

    /// The list of one kind.
    pub open spec fn of(&self, kind: RuleKind) -> Seq<PushRule> {
        match kind {
            RuleKind::Override => self.override_@,
            RuleKind::Underride => self.underride@,
            RuleKind::Sender => self.sender@,
            RuleKind::Room => self.room@,
            RuleKind::Content => self.content@,
        }
    }

    /// The other lists are those of `other`.
    pub open spec fn same_except(&self, other: Ruleset, kind: RuleKind) -> bool {
        forall|k: RuleKind| k != kind ==> #[trigger] self.of(k) == other.of(k)
    }

    /// The list of one kind.
    pub fn rules(&self, kind: RuleKind) -> (r: &Vec<PushRule>)
        ensures
            r@ == self.of(kind),
    {
        match kind {
            RuleKind::Override => &self.override_,
            RuleKind::Underride => &self.underride,
            RuleKind::Sender => &self.sender,
            RuleKind::Room => &self.room,
            RuleKind::Content => &self.content,
        }
    }

    /// The rule of a kind with the given id.
    pub fn get(&self, kind: RuleKind, id: &String) -> (r: Option<&PushRule>)
        ensures
            r.is_some() == first_index(self.of(kind), id@).is_some(),
            r.is_some() ==> *r.unwrap() == self.of(kind)[first_index(self.of(kind), id@).unwrap()],
    {
        let rules = self.rules(kind);
        match find_rule(rules, id) {
            Some(i) => Some(&rules[i]),
            None => None,
        }
    }

    /// The actions of a rule, as JSON bytes; none where there is no such rule.
    pub fn actions(&self, kind: RuleKind, id: &String) -> (r: Option<&Vec<u8>>)
        ensures
            r.is_some() == first_index(self.of(kind), id@).is_some(),
            r.is_some() ==> *r.unwrap() == self.of(kind)[first_index(self.of(kind), id@).unwrap()].actions,
    {
        match self.get(kind, id) {
            Some(rule) => Some(&rule.actions),
            None => None,
        }
    }

    /// Whether a rule is enabled; false where there is no such rule.
    pub fn enabled(&self, kind: RuleKind, id: &String) -> (r: bool)
        ensures
            r == (first_index(self.of(kind), id@).is_some()
                && self.of(kind)[first_index(self.of(kind), id@).unwrap()].enabled),
    {
        match self.get(kind, id) {
            Some(rule) => rule.enabled,
            None => false,
        }
    }

    /// Adds a rule to its kind's list, replacing the one with the same id.
    pub fn upsert(&mut self, kind: RuleKind, rule: PushRule)
        requires
            old(self).wf(),
        ensures
            final(self).wf(),
            final(self).same_except(*old(self), kind),
            match first_index(old(self).of(kind), rule.rule_id@) {
                Some(i) => final(self).of(kind) == old(self).of(kind).update(i, rule),
                None => final(self).of(kind) == old(self).of(kind).push(rule),
            },
    {
        proof {
            assert(unique_ids(old(self).of(RuleKind::Override)));
            assert(unique_ids(old(self).of(RuleKind::Underride)));
            assert(unique_ids(old(self).of(RuleKind::Sender)));
            assert(unique_ids(old(self).of(RuleKind::Room)));
            assert(unique_ids(old(self).of(RuleKind::Content)));
        }
        let r = match kind {
            RuleKind::Override => upsert_rule(&mut self.override_, rule),
            RuleKind::Underride => upsert_rule(&mut self.underride, rule),
            RuleKind::Sender => upsert_rule(&mut self.sender, rule),
            RuleKind::Room => upsert_rule(&mut self.room, rule),
            RuleKind::Content => upsert_rule(&mut self.content, rule),
        };
        proof {
            assert forall|k: RuleKind| #[trigger] unique_ids(self.of(k)) by {
                match k {
                    RuleKind::Override => {},
                    RuleKind::Underride => {},
                    RuleKind::Sender => {},
                    RuleKind::Room => {},
                    RuleKind::Content => {},
                }
            }
        }
        r
    }

    /// Removes a rule; tells whether there was one.
    pub fn remove(&mut self, kind: RuleKind, id: &String) -> (found: bool)
        requires
            old(self).wf(),
        ensures
            final(self).wf(),
            final(self).same_except(*old(self), kind),
            found == first_index(old(self).of(kind), id@).is_some(),
            forall|j: int| 0 <= j < final(self).of(kind).len() ==> (#[trigger] final(self).of(kind)[j]).rule_id@ != id@,
            match first_index(old(self).of(kind), id@) {
                Some(i) => final(self).of(kind) == old(self).of(kind).remove(i),
                None => final(self).of(kind) == old(self).of(kind),
            },
    {
        proof {
            assert(unique_ids(old(self).of(RuleKind::Override)));
            assert(unique_ids(old(self).of(RuleKind::Underride)));
            assert(unique_ids(old(self).of(RuleKind::Sender)));
            assert(unique_ids(old(self).of(RuleKind::Room)));
            assert(unique_ids(old(self).of(RuleKind::Content)));
        }
        let r = match kind {
            RuleKind::Override => remove_rule(&mut self.override_, id),
            RuleKind::Underride => remove_rule(&mut self.underride, id),
            RuleKind::Sender => remove_rule(&mut self.sender, id),
            RuleKind::Room => remove_rule(&mut self.room, id),
            RuleKind::Content => remove_rule(&mut self.content, id),
        };
        proof {
            assert forall|k: RuleKind| #[trigger] unique_ids(self.of(k)) by {
                match k {
                    RuleKind::Override => {},
                    RuleKind::Underride => {},
                    RuleKind::Sender => {},
                    RuleKind::Room => {},
                    RuleKind::Content => {},
                }
            }
        }
        r
    }

    /// Gives a rule new actions; tells whether there was one.
    pub fn set_actions(&mut self, kind: RuleKind, id: &String, actions: Vec<u8>) -> (found: bool)
        requires
            old(self).wf(),
        ensures
            final(self).wf(),
            final(self).same_except(*old(self), kind),
            found == first_index(old(self).of(kind), id@).is_some(),
            final(self).of(kind).len() == old(self).of(kind).len(),
            match first_index(old(self).of(kind), id@) {
                Some(i) => {
                    &&& forall|j: int| 0 <= j < old(self).of(kind).len() && j != i ==> #[trigger] final(self).of(kind)[j] == old(self).of(kind)[j]
                    &&& final(self).of(kind)[i].actions@ == actions@
                    &&& final(self).of(kind)[i].rule_id == old(self).of(kind)[i].rule_id
                    &&& final(self).of(kind)[i].enabled == old(self).of(kind)[i].enabled
                    &&& final(self).of(kind)[i].default == old(self).of(kind)[i].default
                    &&& final(self).of(kind)[i].conditions == old(self).of(kind)[i].conditions
                    &&& final(self).of(kind)[i].pattern == old(self).of(kind)[i].pattern
                },
                None => final(self).of(kind) == old(self).of(kind),
            },
    {
        proof {
            assert(unique_ids(old(self).of(RuleKind::Override)));
            assert(unique_ids(old(self).of(RuleKind::Underride)));
            assert(unique_ids(old(self).of(RuleKind::Sender)));
            assert(unique_ids(old(self).of(RuleKind::Room)));
            assert(unique_ids(old(self).of(RuleKind::Content)));
        }
        let r = match kind {
            RuleKind::Override => set_rule_actions(&mut self.override_, id, actions),
            RuleKind::Underride => set_rule_actions(&mut self.underride, id, actions),
            RuleKind::Sender => set_rule_actions(&mut self.sender, id, actions),
            RuleKind::Room => set_rule_actions(&mut self.room, id, actions),
            RuleKind::Content => set_rule_actions(&mut self.content, id, actions),
        };
        proof {
            assert forall|k: RuleKind| #[trigger] unique_ids(self.of(k)) by {
                match k {
                    RuleKind::Override => {},
                    RuleKind::Underride => {},
                    RuleKind::Sender => {},
                    RuleKind::Room => {},
                    RuleKind::Content => {},
                }
            }
        }
        r
    }

    /// Enables or disables a rule; tells whether there was one.
    pub fn set_enabled(&mut self, kind: RuleKind, id: &String, enabled: bool) -> (found: bool)
        requires
            old(self).wf(),
        ensures
            final(self).wf(),
            final(self).same_except(*old(self), kind),
            found == first_index(old(self).of(kind), id@).is_some(),
            final(self).of(kind).len() == old(self).of(kind).len(),
            match first_index(old(self).of(kind), id@) {
                Some(i) => {
                    &&& forall|j: int| 0 <= j < old(self).of(kind).len() && j != i ==> #[trigger] final(self).of(kind)[j] == old(self).of(kind)[j]
                    &&& final(self).of(kind)[i].enabled == enabled
                    &&& final(self).of(kind)[i].rule_id == old(self).of(kind)[i].rule_id
                    &&& final(self).of(kind)[i].actions == old(self).of(kind)[i].actions
                    &&& final(self).of(kind)[i].default == old(self).of(kind)[i].default
                    &&& final(self).of(kind)[i].conditions == old(self).of(kind)[i].conditions
                    &&& final(self).of(kind)[i].pattern == old(self).of(kind)[i].pattern
                },
                None => final(self).of(kind) == old(self).of(kind),
            },
    {
        proof {
            assert(unique_ids(old(self).of(RuleKind::Override)));
            assert(unique_ids(old(self).of(RuleKind::Underride)));
            assert(unique_ids(old(self).of(RuleKind::Sender)));
            assert(unique_ids(old(self).of(RuleKind::Room)));
            assert(unique_ids(old(self).of(RuleKind::Content)));
        }
        let r = match kind {
            RuleKind::Override => set_rule_enabled(&mut self.override_, id, enabled),
            RuleKind::Underride => set_rule_enabled(&mut self.underride, id, enabled),
            RuleKind::Sender => set_rule_enabled(&mut self.sender, id, enabled),
            RuleKind::Room => set_rule_enabled(&mut self.room, id, enabled),
            RuleKind::Content => set_rule_enabled(&mut self.content, id, enabled),
        };
        proof {
            assert forall|k: RuleKind| #[trigger] unique_ids(self.of(k)) by {
                match k {
                    RuleKind::Override => {},
                    RuleKind::Underride => {},
                    RuleKind::Sender => {},
                    RuleKind::Room => {},
                    RuleKind::Content => {},
                }
            }
        }
        r
    }
}

impl Ruleset {
    /// Deletes a rule; an unknown rule is `NotFound`.
    pub fn delete(&mut self, kind: RuleKind, id: &String) -> (r: Result<(), Error>)
        requires
            old(self).wf(),
        ensures
            final(self).wf(),
            final(self).same_except(*old(self), kind),
            first_index(old(self).of(kind), id@).is_none() ==> r == Err::<(), Error>(Error::NotFound)
                && final(self).of(kind) == old(self).of(kind),
            first_index(old(self).of(kind), id@).is_some() ==> r == Ok::<(), Error>(())
                && final(self).of(kind) == old(self).of(kind).remove(first_index(old(self).of(kind), id@).unwrap()),
            forall|j: int| 0 <= j < final(self).of(kind).len() ==> (#[trigger] final(self).of(kind)[j]).rule_id@ != id@,
    {
        let ghost before = *self;
        if self.remove(kind, id) {
            Ok(())
        } else {
            Err(Error::NotFound)
        }
    }
}

/// Whether no two rules of the list share an id.
pub fn ids_unique(rules: &Vec<PushRule>) -> (r: bool)
    ensures
        r == unique_ids(rules@),
{
    let mut i: usize = 0;
    while i < rules.len()
        invariant
            i <= rules@.len(),
            forall|x: int, y: int| 0 <= x < i && 0 <= y < rules@.len() && x != y ==> rules@[x].rule_id@ != rules@[y].rule_id@,
        decreases rules@.len() - i,
    {
        let mut j: usize = 0;
        while j < rules.len()
            invariant
                i < rules@.len(),
                j <= rules@.len(),
                forall|x: int, y: int| 0 <= x < i && 0 <= y < rules@.len() && x != y ==> rules@[x].rule_id@ != rules@[y].rule_id@,
                forall|y: int| 0 <= y < j && y != i ==> rules@[i as int].rule_id@ != rules@[y].rule_id@,
            decreases rules@.len() - j,
        {
            if j != i && rules[i].rule_id == rules[j].rule_id {
                return false;
            }
            j = j + 1;
        }
        i = i + 1;
    }
    true
}

/// Push rules are kept for the `global` scope only.
pub fn check_scope(scope: &String) -> (r: Result<(), Error>)
    ensures
        r == (if scope@ == "global"@ { Ok::<(), Error>(()) } else { Err::<(), Error>(Error::InvalidParam) }),
{
    if *scope == String::from_str("global") {
        Ok(())
    } else {
        Err(Error::InvalidParam)
    }
}

/// A new rule as a client sets it: enabled, not a server default.
pub fn new_rule(rule_id: String, actions: Vec<u8>, conditions: Vec<u8>, pattern: Option<String>) -> (r: PushRule)
    ensures
        r.rule_id == rule_id,
        r.enabled,
        !r.default,
        r.actions == actions,
        r.conditions == conditions,
        r.pattern == pattern,
{
    PushRule { rule_id, enabled: true, default: false, actions, conditions, pattern }
}

} // verus!
