//! Travel profiles: ordered rule lists that decide access, oneway,
//! speed, priority and obstacles from tags, and the directed edge-cost
//! model built on them.
//!
//! All quantities are plain integers: speeds are in thousandths of a
//! kilometer per hour (meters per hour), distances in meters, times in
//! milliseconds, and priorities in thousandths (a priority of `1300`
//! divides the cost as the rational `1.3` would).
use vstd::prelude::*;
use crate::idmap::{IdMap, seq_has_key, seq_key_value};
use crate::node::Node;
use crate::way::Way;

verus! {

/// A single tag-equality test: a rule with this condition fires on a
/// subject whose tag map maps `key` to exactly `value`.
pub struct Condition {
    pub key: Option<String>,
    pub value: Option<String>,
}

/// What a fired rule concludes. Only the field of the rule list's own
/// concern is read; a well-formed profile fills that field.
pub struct Conclusion {
    pub has_access: Option<bool>,
    pub is_oneway: Option<bool>,
    pub has_speed: Option<u64>,
    pub is_obstacle: Option<bool>,
    pub has_obstacle_time: Option<u64>,
    pub has_priority: Option<u64>,
}

/// One rule: an optional single tag-equality condition and a conclusion.
/// An unconditional rule always fires.
pub struct Rule {
    pub condition: Option<Condition>,
    pub conclusion: Conclusion,
}

/// Whether `rule` fires on a subject with tag map `tags`: either it is
/// unconditional, or its condition names a key and a value and the tag
/// map holds exactly that pair. A condition missing its key or value
/// never fires.
pub open spec fn spec_rule_applies(rule: Rule, tags: Seq<(String, String)>) -> bool {
    match rule.condition {
        Option::None => true,
        Option::Some(c) => match (c.key, c.value) {
            (Option::Some(k), Option::Some(v)) => seq_has_key(tags, k@) && seq_key_value(
                tags,
                k@,
            )@ == v@,
            _ => false,
        },
    }
}

/// The conclusion of the first rule of `rules` at or after `i` that
/// fires on `tags`, if any: rules are tested in declaration order and
/// the first firing rule wins.
pub open spec fn spec_first_match_from(rules: Seq<Rule>, tags: Seq<(String, String)>, i: int) -> Option<
    Conclusion,
>
    decreases rules.len() - i,
{
    if i < 0 || i >= rules.len() {
        Option::None
    } else if spec_rule_applies(rules[i], tags) {
        Option::Some(rules[i].conclusion)
    } else {
        spec_first_match_from(rules, tags, i + 1)
    }
}

pub open spec fn spec_first_match(rules: Seq<Rule>, tags: Seq<(String, String)>) -> Option<
    Conclusion,
> {
    spec_first_match_from(rules, tags, 0)
}

/// A conclusion that the first-match search returns is the conclusion
/// of one of the rules searched.
pub proof fn lemma_first_match_from_rule(rules: Seq<Rule>, tags: Seq<(String, String)>, i: int)
    ensures
        match spec_first_match_from(rules, tags, i) {
            Option::Some(c) => exists|j: int|
                i <= j < rules.len() && (#[trigger] rules[j]).conclusion == c,
            Option::None => true,
        },
    decreases rules.len() - i,
{
    if 0 <= i < rules.len() && !spec_rule_applies(rules[i], tags) {
        lemma_first_match_from_rule(rules, tags, i + 1);
    }
}

/// Saturation of a mathematical integer to the `u64` range.
pub open spec fn sat64(x: int) -> u64 {
    if x > u64::MAX {
        u64::MAX
    } else if x < 0 {
        0u64
    } else {
        x as u64
    }
}

/// Travel time in milliseconds over `distance` meters at `speed`
/// thousandths of km/h, saturated; a speed of zero never arrives.
pub open spec fn spec_duration_ms(distance: u64, speed: u64) -> u64 {
    if speed == 0 {
        u64::MAX
    } else {
        sat64(distance * 3_600_000 / speed as int)
    }
}

/// The directed edge cost: duration plus the destination's obstacle
/// time, divided by the priority (in thousandths), floored at one so
/// that every edge of the graph costs a strictly positive integer.
pub open spec fn spec_cost_formula(duration: u64, obstacle: u64, priority: u64) -> u64 {
    if priority == 0 {
        1u64
    } else {
        let scaled = sat64((duration + obstacle) * 1000 / priority as int);
        if scaled >= 1 {
            scaled
        } else {
            1u64
        }
    }
}

/// A travel profile: an optional speed ceiling and one ordered rule
/// list per concern. Rules are evaluated first-match-wins; unconditional
/// rules act as fallbacks and are expected to sort last.
pub struct Profile {
    pub max_speed: Option<u64>,
    pub access_rules: Vec<Rule>,
    pub oneway_rules: Vec<Rule>,
    pub speed_rules: Vec<Rule>,
    pub priority_rules: Vec<Rule>,
    pub obstacle_rules: Vec<Rule>,
    pub obstacle_time_rules: Vec<Rule>,
}

/// Every rule of an access list concludes about access, and so on for
/// the other concerns; priorities are strictly positive.
pub open spec fn access_rules_wf(rules: Seq<Rule>) -> bool {
    forall|i: int| 0 <= i < rules.len() ==> (#[trigger] rules[i]).conclusion.has_access is Some
}

pub open spec fn oneway_rules_wf(rules: Seq<Rule>) -> bool {
    forall|i: int| 0 <= i < rules.len() ==> (#[trigger] rules[i]).conclusion.is_oneway is Some
}

pub open spec fn speed_rules_wf(rules: Seq<Rule>) -> bool {
    forall|i: int| 0 <= i < rules.len() ==> (#[trigger] rules[i]).conclusion.has_speed is Some
}

pub open spec fn priority_rules_wf(rules: Seq<Rule>) -> bool {
    forall|i: int|
        0 <= i < rules.len() ==> (#[trigger] rules[i]).conclusion.has_priority is Some
            && rules[i].conclusion.has_priority.unwrap() >= 1
}

pub open spec fn obstacle_rules_wf(rules: Seq<Rule>) -> bool {
    forall|i: int| 0 <= i < rules.len() ==> (#[trigger] rules[i]).conclusion.is_obstacle is Some
}

pub open spec fn obstacle_time_rules_wf(rules: Seq<Rule>) -> bool {
    forall|i: int|
        0 <= i < rules.len() ==> (#[trigger] rules[i]).conclusion.has_obstacle_time is Some
}

impl Profile {
    pub open spec fn wf(&self) -> bool {
        &&& access_rules_wf(self.access_rules@)
        &&& oneway_rules_wf(self.oneway_rules@)
        &&& speed_rules_wf(self.speed_rules@)
        &&& priority_rules_wf(self.priority_rules@)
        &&& obstacle_rules_wf(self.obstacle_rules@)
        &&& obstacle_time_rules_wf(self.obstacle_time_rules@)
    }

    /// What the profile decides about access to `way`: the first firing
    /// access rule, or access granted when none fires.
    pub open spec fn spec_has_access(&self, way: &Way) -> bool {
        match spec_first_match(self.access_rules@, way.tags.entries@) {
            Option::Some(c) => c.has_access.unwrap(),
            Option::None => true,
        }
    }

    /// What the profile decides about the direction of `way`: the first
    /// firing oneway rule, or two-way when none fires.
    pub open spec fn spec_is_one_way(&self, way: &Way) -> bool {
        match spec_first_match(self.oneway_rules@, way.tags.entries@) {
            Option::Some(c) => c.is_oneway.unwrap(),
            Option::None => false,
        }
    }

    /// Whether `node` blocks the profile: the first firing obstacle
    /// rule, or passable when none fires.
    pub open spec fn spec_is_obstacle(&self, node: &Node) -> bool {
        match spec_first_match(self.obstacle_rules@, node.tags.entries@) {
            Option::Some(c) => c.is_obstacle.unwrap(),
            Option::None => false,
        }
    }

    /// The crossing time of `node` in milliseconds: the first firing
    /// obstacle-time rule, or zero when none fires.
    pub open spec fn spec_obstacle_time(&self, node: &Node) -> u64 {
        match spec_first_match(self.obstacle_time_rules@, node.tags.entries@) {
            Option::Some(c) => c.has_obstacle_time.unwrap(),
            Option::None => 0u64,
        }
    }

    pub open spec fn spec_max_speed(&self) -> u64 {
        match self.max_speed {
            Option::Some(s) => s,
            Option::None => 300_000u64,
        }
    }

    /// The ceiling that both the way's own maximum speed and the
    /// profile's maximum impose.
    pub open spec fn spec_speed_limit(&self, way: &Way) -> u64 {
        let way_max = match way.max_speed {
            Option::Some(s) => s,
            Option::None => u64::MAX,
        };
        if way_max < self.spec_max_speed() {
            way_max
        } else {
            self.spec_max_speed()
        }
    }

    /// The speed the profile travels `way` at: the first firing speed
    /// rule capped by the speed limit, or the limit capped by the
    /// default of five km/h when none fires.
    pub open spec fn spec_speed(&self, way: &Way) -> u64 {
        let limit = self.spec_speed_limit(way);
        match spec_first_match(self.speed_rules@, way.tags.entries@) {
            Option::Some(c) => {
                let s = c.has_speed.unwrap();
                if s < limit {
                    s
                } else {
                    limit
                }
            },
            Option::None => if limit < 5_000u64 {
                limit
            } else {
                5_000u64
            },
        }
    }

    /// The priority divisor for `way` in thousandths: the first firing
    /// priority rule, or one (as `1000`) when none fires. Costs are
    /// divided by this value and multiplied by a thousand.
    pub open spec fn spec_priority(&self, way: &Way) -> u64 {
        match spec_first_match(self.priority_rules@, way.tags.entries@) {
            Option::Some(c) => c.has_priority.unwrap(),
            Option::None => 1000u64,
        }
    }

    /// The cost of traversing `distance` meters of `way` and arriving
    /// at `to`.
    pub open spec fn spec_cost(&self, to: &Node, way: &Way, distance: u64) -> u64 {
        spec_cost_formula(
            spec_duration_ms(distance, self.spec_speed(way)),
            self.spec_obstacle_time(to),
            self.spec_priority(way),
        )
    }
}

/// Whether `rule` fires on `tags`.
fn rule_applies(rule: &Rule, tags: &IdMap<String>) -> (r: bool)
    requires
        tags.wf(),
    ensures
        r == spec_rule_applies(*rule, tags.entries@),
{
    match &rule.condition {
        Option::None => true,
        Option::Some(c) => match (&c.key, &c.value) {
            (Option::Some(k), Option::Some(v)) => {
                match tags.find(k) {
                    Option::Some(i) => {
                        let tv = &tags.at(i).1;
                        *tv == *v
                    },
                    Option::None => false,
                }
            },
            _ => false,
        },
    }
}

/// The first firing rule's conclusion, in declaration order.
fn first_match<'a>(rules: &'a Vec<Rule>, tags: &IdMap<String>) -> (r: Option<&'a Conclusion>)
    requires
        tags.wf(),
    ensures
        match r {
            Option::Some(c) => spec_first_match(rules@, tags.entries@) == Option::Some(*c),
            Option::None => spec_first_match(rules@, tags.entries@) is None,
        },
{
    let mut i: usize = 0;
    while i < rules.len()
        invariant
            tags.wf(),
            0 <= i <= rules@.len(),
            spec_first_match(rules@, tags.entries@) == spec_first_match_from(
                rules@,
                tags.entries@,
                i as int,
            ),
        decreases rules@.len() - i,
    {
        if rule_applies(&rules[i], tags) {
            return Some(&rules[i].conclusion);
        }
        i = i + 1;
    }
    None
}

impl Profile {
    /// Whether the profile may use `way` at all.
    pub fn has_access(&self, way: &Way) -> (r: bool)
        requires
            self.wf(),
            way.wf(),
        ensures
            r == self.spec_has_access(way),
    {
        match first_match(&self.access_rules, &way.tags) {
            Option::Some(c) => {
                proof {
                    lemma_first_match_from_rule(self.access_rules@, way.tags.entries@, 0);
                }
                c.has_access.unwrap()
            },
            Option::None => true,
        }
    }

    /// Whether `way` may only be traversed from first node to last.
    pub fn is_one_way(&self, way: &Way) -> (r: bool)
        requires
            self.wf(),
            way.wf(),
        ensures
            r == self.spec_is_one_way(way),
    {
        match first_match(&self.oneway_rules, &way.tags) {
            Option::Some(c) => {
                proof {
                    lemma_first_match_from_rule(self.oneway_rules@, way.tags.entries@, 0);
                }
                c.is_oneway.unwrap()
            },
            Option::None => false,
        }
    }

    /// Whether `node` blocks this profile entirely.
    pub fn is_obstacle(&self, node: &Node) -> (r: bool)
        requires
            self.wf(),
            node.wf(),
        ensures
            r == self.spec_is_obstacle(node),
    {
        match first_match(&self.obstacle_rules, &node.tags) {
            Option::Some(c) => {
                proof {
                    lemma_first_match_from_rule(self.obstacle_rules@, node.tags.entries@, 0);
                }
                c.is_obstacle.unwrap()
            },
            Option::None => false,
        }
    }

    /// How long crossing `node` takes, in milliseconds.
    pub fn get_obstacle_time(&self, node: &Node) -> (r: u64)
        requires
            self.wf(),
            node.wf(),
        ensures
            r == self.spec_obstacle_time(node),
    {
        match first_match(&self.obstacle_time_rules, &node.tags) {
            Option::Some(c) => {
                proof {
                    lemma_first_match_from_rule(self.obstacle_time_rules@, node.tags.entries@, 0);
                }
                c.has_obstacle_time.unwrap()
            },
            Option::None => 0,
        }
    }

    /// The profile's own speed ceiling, in thousandths of km/h.
    pub fn get_max_speed(&self) -> (r: u64)
        ensures
            r == self.spec_max_speed(),
    {
        match self.max_speed {
            Option::Some(s) => s,
            Option::None => 300_000,
        }
    }

    /// The fallback speed when no rule fires, in thousandths of km/h.
    pub fn get_default_speed(&self) -> (r: u64)
        ensures
            r == 5_000u64,
    {
        5_000
    }

    /// The speed the profile travels `way` at, in thousandths of km/h.
    pub fn get_speed(&self, way: &Way) -> (r: u64)
        requires
            self.wf(),
            way.wf(),
        ensures
            r == self.spec_speed(way),
    {
        let mut limit = self.get_max_speed();
        match way.max_speed {
            Option::Some(s) => {
                if s < limit {
                    limit = s;
                }
            },
            Option::None => {},
        }
        match first_match(&self.speed_rules, &way.tags) {
            Option::Some(c) => {
                proof {
                    lemma_first_match_from_rule(self.speed_rules@, way.tags.entries@, 0);
                }
                let s = c.has_speed.unwrap();
                if s < limit {
                    s
                } else {
                    limit
                }
            },
            Option::None => {
                if limit < 5_000 {
                    limit
                } else {
                    5_000
                }
            },
        }
    }

    /// The priority divisor for `way`, in thousandths: the cost of every
    /// segment of `way` is multiplied by a thousand and divided by this.
    pub fn get_multiplier(&self, way: &Way) -> (r: u64)
        requires
            self.wf(),
            way.wf(),
        ensures
            r == self.spec_priority(way),
            r >= 1,
    {
        match first_match(&self.priority_rules, &way.tags) {
            Option::Some(c) => {
                proof {
                    lemma_first_match_from_rule(self.priority_rules@, way.tags.entries@, 0);
                }
                c.has_priority.unwrap()
            },
            Option::None => 1000,
        }
    }

    /// Travel time over `distance` meters of `way`, in milliseconds.
    pub fn get_duration(&self, way: &Way, distance: u64) -> (r: u64)
        requires
            self.wf(),
            way.wf(),
        ensures
            r == spec_duration_ms(distance, self.spec_speed(way)),
    {
        let speed = self.get_speed(way);
        if speed == 0 {
            u64::MAX
        } else {
            let q = (distance as u128) * 3_600_000u128 / (speed as u128);
            if q > u64::MAX as u128 {
                u64::MAX
            } else {
                q as u64
            }
        }
    }

    /// The cost of traversing `distance` meters of `way`, arriving at
    /// `to`: duration plus obstacle time, weighted by priority, floored
    /// at one millisecond.
    pub fn get_cost(&self, to: &Node, way: &Way, distance: u64) -> (r: u64)
        requires
            self.wf(),
            way.wf(),
            to.wf(),
        ensures
            r == self.spec_cost(to, way, distance),
            r >= 1,
    {
        let duration = self.get_duration(way, distance);
        let obstacle = self.get_obstacle_time(to);
        let priority = self.get_multiplier(way);
        let scaled = ((duration as u128) + (obstacle as u128)) * 1000u128 / (priority as u128);
        let cost = if scaled > u64::MAX as u128 {
            u64::MAX
        } else {
            scaled as u64
        };
        if cost >= 1 {
            cost
        } else {
            1
        }
    }
}

/// Whether some rule of `rules` names `uri` in its condition, as key or
/// as value.
pub open spec fn spec_concept_in(rules: Seq<Rule>, uri: Seq<char>) -> bool {
    exists|i: int|
        0 <= i < rules.len() && match (#[trigger] rules[i]).condition {
            Option::Some(c) => {
                ||| (c.key matches Option::Some(k) && k@ == uri)
                ||| (c.value matches Option::Some(v) && v@ == uri)
            },
            Option::None => false,
        }
}

/// Adds to `result` every tag key and value that a condition of `rules`
/// references.
fn extract_concepts(rules: &Vec<Rule>, result: &mut crate::idmap::IdSet)
    requires
        old(result).wf(),
    ensures
        final(result).wf(),
        forall|uri: Seq<char>|
            final(result).spec_has(uri) <==> (old(result).spec_has(uri) || spec_concept_in(
                rules@,
                uri,
            )),
{
    let ghost r0 = *old(result);
    let mut i: usize = 0;
    while i < rules.len()
        invariant
            result.wf(),
            0 <= i <= rules@.len(),
            forall|uri: Seq<char>|
                result.spec_has(uri) ==> (r0.spec_has(uri) || spec_concept_in(rules@, uri)),
            forall|uri: Seq<char>| r0.spec_has(uri) ==> result.spec_has(uri),
            forall|j: int|
                0 <= j < i ==> match (#[trigger] rules@[j]).condition {
                    Option::Some(c) => {
                        &&& (c.key matches Option::Some(k) ==> result.spec_has(k@))
                        &&& (c.value matches Option::Some(v) ==> result.spec_has(v@))
                    },
                    Option::None => true,
                },
        decreases rules@.len() - i,
    {
        match &rules[i].condition {
            Option::Some(c) => {
                match &c.key {
                    Option::Some(k) => {
                        result.insert(k.clone());
                        proof {
                            assert(match rules@[i as int].condition {
                                Option::Some(c2) => c2.key matches Option::Some(k2) && k2@ == k@,
                                Option::None => false,
                            });
                        }
                    },
                    Option::None => {},
                }
                match &c.value {
                    Option::Some(v) => {
                        result.insert(v.clone());
                        proof {
                            assert(match rules@[i as int].condition {
                                Option::Some(c2) => c2.value matches Option::Some(v2) && v2@
                                    == v@,
                                Option::None => false,
                            });
                        }
                    },
                    Option::None => {},
                }
            },
            Option::None => {},
        }
        i = i + 1;
    }
    proof {
        assert forall|uri: Seq<char>| spec_concept_in(rules@, uri) implies result.spec_has(
            uri,
        ) by {
            let j = choose|j: int|
                0 <= j < rules@.len() && match (#[trigger] rules@[j]).condition {
                    Option::Some(c) => {
                        ||| (c.key matches Option::Some(k) && k@ == uri)
                        ||| (c.value matches Option::Some(v) && v@ == uri)
                    },
                    Option::None => false,
                };
        }
    }
}

impl Profile {
    /// Whether any rule of the profile references `uri` as a tag key or
    /// value.
    pub open spec fn spec_uses_concept(&self, uri: Seq<char>) -> bool {
        ||| spec_concept_in(self.access_rules@, uri)
        ||| spec_concept_in(self.oneway_rules@, uri)
        ||| spec_concept_in(self.speed_rules@, uri)
        ||| spec_concept_in(self.priority_rules@, uri)
        ||| spec_concept_in(self.obstacle_rules@, uri)
        ||| spec_concept_in(self.obstacle_time_rules@, uri)
    }

    /// The set of tag keys and values that any rule of the profile
    /// references: everything outside it is irrelevant to this profile
    /// and may be pruned downstream.
    pub fn get_used_concepts(&self) -> (r: crate::idmap::IdSet)
        ensures
            r.wf(),
            forall|uri: Seq<char>| r.spec_has(uri) <==> self.spec_uses_concept(uri),
    {
        let mut result = crate::idmap::IdSet::new();
        extract_concepts(&self.access_rules, &mut result);
        extract_concepts(&self.oneway_rules, &mut result);
        extract_concepts(&self.speed_rules, &mut result);
        extract_concepts(&self.priority_rules, &mut result);
        extract_concepts(&self.obstacle_rules, &mut result);
        extract_concepts(&self.obstacle_time_rules, &mut result);
        result
    }

    /// Whether the profile is well-formed, decided at run time: every
    /// rule concludes about its own list's concern and priorities are
    /// strictly positive. A profile failing this is a configuration
    /// error detected when it is loaded.
    pub fn is_wf(&self) -> (r: bool)
        ensures
            r == self.wf(),
    {
        check_access_rules(&self.access_rules) && check_oneway_rules(&self.oneway_rules)
            && check_speed_rules(&self.speed_rules) && check_priority_rules(&self.priority_rules)
            && check_obstacle_rules(&self.obstacle_rules) && check_obstacle_time_rules(
            &self.obstacle_time_rules,
        )
    }
}

fn check_access_rules(rules: &Vec<Rule>) -> (r: bool)
    ensures
        r == access_rules_wf(rules@),
{
    let mut i: usize = 0;
    while i < rules.len()
        invariant
            0 <= i <= rules@.len(),
            forall|j: int| 0 <= j < i ==> (#[trigger] rules@[j]).conclusion.has_access is Some,
        decreases rules@.len() - i,
    {
        if rules[i].conclusion.has_access.is_none() {
            return false;
        }
        i = i + 1;
    }
    true
}

fn check_oneway_rules(rules: &Vec<Rule>) -> (r: bool)
    ensures
        r == oneway_rules_wf(rules@),
{
    let mut i: usize = 0;
    while i < rules.len()
        invariant
            0 <= i <= rules@.len(),
            forall|j: int| 0 <= j < i ==> (#[trigger] rules@[j]).conclusion.is_oneway is Some,
        decreases rules@.len() - i,
    {
        if rules[i].conclusion.is_oneway.is_none() {
            return false;
        }
        i = i + 1;
    }
    true
}

fn check_speed_rules(rules: &Vec<Rule>) -> (r: bool)
    ensures
        r == speed_rules_wf(rules@),
{
    let mut i: usize = 0;
    while i < rules.len()
        invariant
            0 <= i <= rules@.len(),
            forall|j: int| 0 <= j < i ==> (#[trigger] rules@[j]).conclusion.has_speed is Some,
        decreases rules@.len() - i,
    {
        if rules[i].conclusion.has_speed.is_none() {
            return false;
        }
        i = i + 1;
    }
    true
}

fn check_priority_rules(rules: &Vec<Rule>) -> (r: bool)
    ensures
        r == priority_rules_wf(rules@),
{
    let mut i: usize = 0;
    while i < rules.len()
        invariant
            0 <= i <= rules@.len(),
            forall|j: int|
                0 <= j < i ==> (#[trigger] rules@[j]).conclusion.has_priority is Some && rules@[
                j].conclusion.has_priority.unwrap() >= 1,
        decreases rules@.len() - i,
    {
        match rules[i].conclusion.has_priority {
            Option::Some(p) => {
                if p < 1 {
                    return false;
                }
            },
            Option::None => {
                return false;
            },
        }
        i = i + 1;
    }
    true
}

fn check_obstacle_rules(rules: &Vec<Rule>) -> (r: bool)
    ensures
        r == obstacle_rules_wf(rules@),
{
    let mut i: usize = 0;
    while i < rules.len()
        invariant
            0 <= i <= rules@.len(),
            forall|j: int| 0 <= j < i ==> (#[trigger] rules@[j]).conclusion.is_obstacle is Some,
        decreases rules@.len() - i,
    {
        if rules[i].conclusion.is_obstacle.is_none() {
            return false;
        }
        i = i + 1;
    }
    true
}

fn check_obstacle_time_rules(rules: &Vec<Rule>) -> (r: bool)
    ensures
        r == obstacle_time_rules_wf(rules@),
{
    let mut i: usize = 0;
    while i < rules.len()
        invariant
            0 <= i <= rules@.len(),
            forall|j: int|
                0 <= j < i ==> (#[trigger] rules@[j]).conclusion.has_obstacle_time is Some,
        decreases rules@.len() - i,
    {
        if rules[i].conclusion.has_obstacle_time.is_none() {
            return false;
        }
        i = i + 1;
    }
    true
}

} // verus!
