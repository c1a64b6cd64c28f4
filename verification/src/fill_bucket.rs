//! Filling a bucket with objects of random content whose sizes add up to a fixed total, and
//! emptying it again, as a custom resource of a stack.

use crate::text::{decimal_is_read_back, decimal_text, number_value, parse_number};
use vstd::prelude::*;
use vstd::string::StringExecFns;

verus! {

/// Standard deviation of the objects' sizes (1 MiB).
pub const SIZE_STDDEV: usize = 1_048_576;

/// How far a size may be from the mean (3 MiB).
pub const MAX_DEVIATION: usize = 3_145_728;

/// The least size of an object (512 KiB).
pub const MIN_FILE_SIZE: usize = 524_288;

/// What the stack says of the resource.
#[derive(Debug, Clone)]
pub struct ResourceProperties {
    pub bucket_name: String,
    pub key_prefix: String,
    pub object_count: String,
    pub object_size_mb: String,
}

/// What every request says of itself.
#[derive(Debug)]
pub struct RequestEnvelope {
    pub response_url: String,
    pub stack_id: String,
    pub request_id: String,
    pub logical_resource_id: String,
}

/// A request of the stack.
#[derive(Debug)]
pub enum ResourceRequest {
    Create { envelope: RequestEnvelope, properties: ResourceProperties },
    Update {
        envelope: RequestEnvelope,
        physical_resource_id: String,
        old_properties: ResourceProperties,
        properties: ResourceProperties,
    },
    Delete {
        envelope: RequestEnvelope,
        physical_resource_id: String,
        properties: ResourceProperties,
    },
}

/// What the answer to a request repeats of it.
#[derive(Debug)]
pub struct CfnCommon {
    pub response_url: String,
    pub stack_id: String,
    pub request_id: String,
    pub logical_resource_id: String,
    pub physical_resource_id: String,
}

/// What a request asks for.
#[derive(Debug)]
pub enum Work {
    /// The bucket is filled.
    Create(ResourceProperties),
    /// The bucket is emptied, then filled.
    Update { old: ResourceProperties, new: ResourceProperties },
    /// The bucket is emptied.
    Delete(ResourceProperties),
}

impl ResourceRequest {
    /// What the request says of itself.
    pub open spec fn envelope(&self) -> RequestEnvelope {
        match *self {
            ResourceRequest::Create { envelope, .. } => envelope,
            ResourceRequest::Update { envelope, .. } => envelope,
            ResourceRequest::Delete { envelope, .. } => envelope,
        }
    }

    /// The resource's identity. A new resource gets it from its bucket, so that it stays the
    /// same over updates of the stack.
    pub open spec fn physical_id(&self) -> Seq<char> {
        match *self {
            ResourceRequest::Create { properties, .. } => "fill-bucket-"@
                + properties.bucket_name@,
            ResourceRequest::Update { physical_resource_id, .. } => physical_resource_id@,
            ResourceRequest::Delete { physical_resource_id, .. } => physical_resource_id@,
        }
    }

    /// What the request asks for.
    pub open spec fn work(&self) -> Work {
        match *self {
            ResourceRequest::Create { properties, .. } => Work::Create(properties),
            ResourceRequest::Update { old_properties, properties, .. } => Work::Update {
                old: old_properties,
                new: properties,
            },
            ResourceRequest::Delete { properties, .. } => Work::Delete(properties),
        }
    }

    /// Splits a request into what its answer repeats and what it asks for.
    pub fn split(self) -> (halves: (CfnCommon, Work))
        ensures
            halves.0.response_url == self.envelope().response_url,
            halves.0.stack_id == self.envelope().stack_id,
            halves.0.request_id == self.envelope().request_id,
            halves.0.logical_resource_id == self.envelope().logical_resource_id,
            halves.0.physical_resource_id@ == self.physical_id(),
            halves.1 == self.work(),
    {
        match self {
            ResourceRequest::Create { envelope, properties } => {
                let mut id: String = String::from_str("fill-bucket-");
                id.append(properties.bucket_name.as_str());
                (CfnCommon::new(envelope, id), Work::Create(properties))
            },
            ResourceRequest::Update {
                envelope,
                physical_resource_id,
                old_properties,
                properties,
            } => (
                CfnCommon::new(envelope, physical_resource_id),
                Work::Update { old: old_properties, new: properties },
            ),
            ResourceRequest::Delete { envelope, physical_resource_id, properties } => (
                CfnCommon::new(envelope, physical_resource_id),
                Work::Delete(properties),
            ),
        }
    }
}

impl CfnCommon {
    fn new(envelope: RequestEnvelope, physical_resource_id: String) -> (common: CfnCommon)
        ensures
            common.response_url == envelope.response_url,
            common.stack_id == envelope.stack_id,
            common.request_id == envelope.request_id,
            common.logical_resource_id == envelope.logical_resource_id,
            common.physical_resource_id == physical_resource_id,
    {
        CfnCommon {
            response_url: envelope.response_url,
            stack_id: envelope.stack_id,
            request_id: envelope.request_id,
            logical_resource_id: envelope.logical_resource_id,
            physical_resource_id,
        }
    }
}

/// One step of the work.
#[derive(Debug)]
pub enum Step {
    Empty(ResourceProperties),
    Fill(ResourceProperties),
}

/// The steps of the work, in their order.
pub open spec fn work_steps(work: Work) -> Seq<Step> {
    match work {
        Work::Create(properties) => seq![Step::Fill(properties)],
        Work::Update { old, new } => seq![Step::Empty(old), Step::Fill(new)],
        Work::Delete(properties) => seq![Step::Empty(properties)],
    }
}

/// A new resource is filled and nothing is emptied for it; a deleted one is emptied and not
/// filled again; an updated one is emptied as it was before it is filled as it will be.
pub proof fn work_is_done_in_order(old: ResourceProperties, new: ResourceProperties)
    ensures
        work_steps(Work::Create(new)).len() == 1,
        work_steps(Work::Create(new))[0] == Step::Fill(new),
        work_steps(Work::Delete(old)).len() == 1,
        work_steps(Work::Delete(old))[0] == Step::Empty(old),
        work_steps(Work::Update { old, new }) == work_steps(Work::Delete(old)) + work_steps(
            Work::Create(new),
        ),
{
    assert(work_steps(Work::Update { old, new }) =~= work_steps(Work::Delete(old)) + work_steps(
        Work::Create(new),
    ));
}

/// The steps of the work, in their order. A step that fails ends it.
pub fn steps_of(work: Work) -> (steps: Vec<Step>)
    ensures
        steps@ == work_steps(work),
        steps@ == (match work {
            Work::Create(properties) => seq![Step::Fill(properties)],
            Work::Update { old, new } => seq![Step::Empty(old), Step::Fill(new)],
            Work::Delete(properties) => seq![Step::Empty(properties)],
        }),
{
    let mut steps: Vec<Step> = Vec::new();
    match work {
        Work::Create(properties) => {
            steps.push(Step::Fill(properties));
        },
        Work::Update { old, new } => {
            steps.push(Step::Empty(old));
            steps.push(Step::Fill(new));
        },
        Work::Delete(properties) => {
            steps.push(Step::Empty(properties));
        },
    }
    steps
}

/// What the stack is told: whether the work was done, and in words.
pub fn answer_of(outcome: Result<(), String>) -> (answer: (bool, String))
    ensures
        match outcome {
            Ok(_) => answer.0 && answer.1@ == "ok"@,
            Err(reason) => !answer.0 && answer.1 == reason,
        },
{
    match outcome {
        Ok(_) => (true, String::from_str("ok")),
        Err(reason) => (false, reason),
    }
}

/// What is left of the objects and of their total size.
#[derive(Debug, Clone, Copy, PartialEq, Eq, Structural)]
pub struct SizeBudget {
    pub remaining_size_budget: usize,
    pub remaining_objects: usize,
}

/// The mean size of what is left, to the nearest whole number.
pub open spec fn target_mean(budget: SizeBudget) -> int {
    (2 * budget.remaining_size_budget + budget.remaining_objects) / (2
        * budget.remaining_objects as int)
}

/// The least size that the next object may have, besides the last.
pub open spec fn least_size(budget: SizeBudget) -> int {
    if target_mean(budget) - MAX_DEVIATION >= MIN_FILE_SIZE {
        target_mean(budget) - MAX_DEVIATION
    } else {
        MIN_FILE_SIZE as int
    }
}

/// The largest size that the next object may have, besides the last.
pub open spec fn largest_size(budget: SizeBudget) -> int {
    target_mean(budget) + MAX_DEVIATION
}

/// The next object's size for a sampled one: the sample, kept near the mean, or for the last
/// object all that is left.
pub open spec fn size_for(budget: SizeBudget, sampled: usize) -> int {
    if budget.remaining_objects <= 1 {
        budget.remaining_size_budget as int
    } else if sampled < least_size(budget) {
        least_size(budget)
    } else if sampled > largest_size(budget) {
        largest_size(budget)
    } else {
        sampled as int
    }
}

/// The next object can be given a size: one is left, the mean is not below the deviation, and
/// there is enough for it.
pub open spec fn can_size(budget: SizeBudget, sampled: usize) -> bool {
    &&& budget.remaining_objects > 0
    &&& budget.remaining_objects > 1 ==> {
        &&& target_mean(budget) >= MAX_DEVIATION
        &&& largest_size(budget) <= usize::MAX
        &&& size_for(budget, sampled) <= budget.remaining_size_budget
    }
}

/// The budget that the resource's properties give: so many objects, of so many MiB on
/// average.
pub open spec fn budget_of(object_count: Seq<char>, object_size_mb: Seq<char>) -> Option<
    (nat, nat),
> {
    match (number_value(object_count), number_value(object_size_mb)) {
        (Some(count), Some(mb)) => if count <= usize::MAX && mb <= usize::MAX {
            Some((count, count * (mb * 1024 * 1024)))
        } else {
            None
        },
        _ => None,
    }
}

impl ResourceProperties {
    /// The budget that the properties give. There is none where a number cannot be read.
    pub fn budget(&self) -> (budget: Option<SizeBudget>)
        requires
            budget_of(self.object_count@, self.object_size_mb@) matches Some(b) ==> b.1
                <= usize::MAX,
            number_value(self.object_size_mb@) matches Some(mb) ==> mb * 1024 * 1024
                <= usize::MAX,
        ensures
            match budget {
                Some(b) => budget_of(self.object_count@, self.object_size_mb@) == Some(
                    (b.remaining_objects as nat, b.remaining_size_budget as nat),
                ),
                None => budget_of(self.object_count@, self.object_size_mb@) is None,
            },
    {
        let count: usize = match parse_number(self.object_count.as_str()) {
            Some(count) => count,
            None => {
                return None;
            },
        };
        let mb: usize = match parse_number(self.object_size_mb.as_str()) {
            Some(mb) => mb,
            None => {
                return None;
            },
        };
        let size: usize = mb * 1024 * 1024;
        Some(SizeBudget { remaining_size_budget: count * size, remaining_objects: count })
    }
}

impl SizeBudget {
    /// The mean size of what is left, to the nearest whole number.
    pub fn mean(&self) -> (mean: usize)
        requires
            self.remaining_objects > 0,
            target_mean(*self) <= usize::MAX,
        ensures
            mean == target_mean(*self),
    {
        let objects: u128 = self.remaining_objects as u128;
        let budget: u128 = self.remaining_size_budget as u128;
        ((2 * budget + objects) / (2 * objects)) as usize
    }

    /// The size of the next object, which has others behind it: the sample, as far as it does
    /// not stray from the mean.
    fn clamped(&self, sampled: usize) -> (size: usize)
        requires
            self.remaining_objects > 1,
            target_mean(*self) >= MAX_DEVIATION,
            largest_size(*self) <= usize::MAX,
        ensures
            size == size_for(*self, sampled),
    {
        let mean: usize = self.mean();
        let least: usize = if mean - MAX_DEVIATION >= MIN_FILE_SIZE {
            mean - MAX_DEVIATION
        } else {
            MIN_FILE_SIZE
        };
        let largest: usize = mean + MAX_DEVIATION;
        if sampled < least {
            least
        } else if sampled > largest {
            largest
        } else {
            sampled
        }
    }

    /// Whether the next object can be given a size.
    pub fn can_take(&self, sampled: usize) -> (yes: bool)
        ensures
            yes == can_size(*self, sampled),
    {
        if self.remaining_objects <= 1 {
            return self.remaining_objects == 1;
        }
        proof {
            lemma_mean_bound(*self);
        }
        let mean: usize = self.mean();
        mean >= MAX_DEVIATION && mean <= usize::MAX - MAX_DEVIATION && self.clamped(sampled)
            <= self.remaining_size_budget
    }

    /// Gives the next object its size and takes it off the budget.
    pub fn next_size(&mut self, sampled: usize) -> (size: usize)
        requires
            can_size(*old(self), sampled),
        ensures
            size == size_for(*old(self), sampled),
            final(self).remaining_size_budget == old(self).remaining_size_budget - size,
            final(self).remaining_objects == old(self).remaining_objects - 1,
    {
        let size: usize = if self.remaining_objects > 1 {
            self.clamped(sampled)
        } else {
            self.remaining_size_budget
        };
        self.remaining_size_budget = self.remaining_size_budget - size;
        self.remaining_objects = self.remaining_objects - 1;
        size
    }
}

/// The mean is no more than what is left.
proof fn lemma_mean_bound(budget: SizeBudget)
    requires
        budget.remaining_objects > 1,
    ensures
        target_mean(budget) <= usize::MAX,
{
    let objects = budget.remaining_objects as int;
    let size = budget.remaining_size_budget as int;
    assert((2 * size + objects) / (2 * objects) <= size) by (nonlinear_arith)
        requires
            objects > 1,
            size >= 0,
    ;
}

/// The budget after the objects of the first `n` samples have their sizes.
pub open spec fn after_samples(budget: SizeBudget, samples: Seq<usize>, n: nat) -> SizeBudget
    decreases n,
{
    if n == 0 {
        budget
    } else {
        let before = after_samples(budget, samples, (n - 1) as nat);
        SizeBudget {
            remaining_size_budget: (before.remaining_size_budget - size_for(
                before,
                samples[n - 1],
            )) as usize,
            remaining_objects: (before.remaining_objects - 1) as usize,
        }
    }
}

/// The sizes of the objects of the first `n` samples together.
pub open spec fn sizes_total(budget: SizeBudget, samples: Seq<usize>, n: nat) -> int
    decreases n,
{
    if n == 0 {
        0
    } else {
        sizes_total(budget, samples, (n - 1) as nat) + size_for(
            after_samples(budget, samples, (n - 1) as nat),
            samples[n - 1],
        )
    }
}

proof fn lemma_budget_split(budget: SizeBudget, samples: Seq<usize>, n: nat)
    requires
        n <= samples.len(),
        samples.len() == budget.remaining_objects,
        forall|i: int|
            0 <= i < n ==> can_size(
                after_samples(budget, samples, i as nat),
                #[trigger] samples[i],
            ),
    ensures
        sizes_total(budget, samples, n) + after_samples(budget, samples, n).remaining_size_budget
            == budget.remaining_size_budget,
        after_samples(budget, samples, n).remaining_objects == budget.remaining_objects - n,
    decreases n,
{
    if n > 0 {
        let m = (n - 1) as nat;
        lemma_budget_split(budget, samples, m);
        assert(can_size(after_samples(budget, samples, m), samples[m as int]));
    }
}

/// Whatever sizes are sampled, the objects together have the size that was set.
pub proof fn sizes_add_up(budget: SizeBudget, samples: Seq<usize>)
    requires
        samples.len() == budget.remaining_objects,
        budget.remaining_objects > 0,
        forall|i: int|
            0 <= i < samples.len() ==> can_size(
                after_samples(budget, samples, i as nat),
                #[trigger] samples[i],
            ),
    ensures
        sizes_total(budget, samples, samples.len()) == budget.remaining_size_budget,
{
    let n = samples.len();
    let m = (n - 1) as nat;
    lemma_budget_split(budget, samples, m);
    lemma_budget_split(budget, samples, n);
}

/// The keys of a page of a listing, to be deleted.
pub fn keys_to_delete(keys: Vec<Option<String>>) -> (doomed: Vec<String>)
    ensures
        doomed@ == present(keys@, keys@.len()),
{
    let ghost all = keys@;
    let mut doomed: Vec<String> = Vec::new();
    for key in it: keys
        invariant
            it.seq() == all,
            doomed@ == present(all, it.index() as nat),
    {
        let ghost n = it.index();
        assert(key == all[n]);
        if let Some(key) = key {
            doomed.push(key);
        }
    }
    doomed
}

/// The keys that are there among the first `n`.
pub open spec fn present(keys: Seq<Option<String>>, n: nat) -> Seq<String>
    decreases n,
{
    if n == 0 {
        Seq::empty()
    } else {
        match keys[n - 1] {
            Some(key) => present(keys, (n - 1) as nat).push(key),
            None => present(keys, (n - 1) as nat),
        }
    }
}

/// The mean is the whole number that is nearest to what each of the objects would get, the
/// upper one where two are equally near.
pub proof fn means_are_nearest(budget: SizeBudget)
    requires
        budget.remaining_objects > 0,
    ensures
        ({
            let off = 2 * (target_mean(budget) * budget.remaining_objects
                - budget.remaining_size_budget);
            -budget.remaining_objects < off <= budget.remaining_objects
        }),
{
    let objects = budget.remaining_objects as int;
    let size = budget.remaining_size_budget as int;
    let mean = target_mean(budget);
    vstd::arithmetic::div_mod::lemma_fundamental_div_mod(2 * size + objects, 2 * objects);
    vstd::arithmetic::div_mod::lemma_mod_bound(2 * size + objects, 2 * objects);
    let rest = (2 * size + objects) % (2 * objects);
    assert(2 * size + objects == 2 * (mean * objects) + rest) by (nonlinear_arith)
        requires
            2 * size + objects == (2 * objects) * mean + rest,
    ;
}

/// The only whole number that is nearest is the mean.
proof fn lemma_one_mean(budget: SizeBudget, mean: int)
    requires
        budget.remaining_objects > 0,
        -budget.remaining_objects < 2 * (mean * budget.remaining_objects
            - budget.remaining_size_budget) <= budget.remaining_objects,
    ensures
        mean == target_mean(budget),
{
    let objects = budget.remaining_objects as int;
    let size = budget.remaining_size_budget as int;
    let rest = 2 * size + objects - 2 * (mean * objects);
    assert(2 * size + objects == mean * (2 * objects) + rest) by (nonlinear_arith)
        requires
            rest == 2 * size + objects - 2 * (mean * objects),
    ;
    vstd::arithmetic::div_mod::lemma_fundamental_div_mod_converse(
        2 * size + objects,
        2 * objects,
        mean,
        rest,
    );
}

/// Where other objects are still to come, the size is the one nearest to the sample among
/// those that are at most 3 MiB from the mean and at least 512 KiB: so a sample among them
/// is kept as it is.
pub proof fn samples_are_kept_near_the_mean(
    budget: SizeBudget,
    sampled: usize,
    mean: int,
    other: int,
)
    requires
        budget.remaining_objects > 1,
        -budget.remaining_objects < 2 * (mean * budget.remaining_objects
            - budget.remaining_size_budget) <= budget.remaining_objects,
        mean >= 3 * 1024 * 1024,
        mean - 3 * 1024 * 1024 <= other <= mean + 3 * 1024 * 1024,
        other >= 512 * 1024,
    ensures
        ({
            let size = size_for(budget, sampled);
            let away = if size >= sampled {
                size - sampled
            } else {
                sampled - size
            };
            let other_away = if other >= sampled {
                other - sampled
            } else {
                sampled - other
            };
            &&& mean - 3 * 1024 * 1024 <= size <= mean + 3 * 1024 * 1024
            &&& size >= 512 * 1024
            &&& away <= other_away
            &&& other == sampled ==> size == sampled
        }),
{
    lemma_one_mean(budget, mean);
}

/// The last object gets all that is left.
pub proof fn last_object_takes_the_rest(budget: SizeBudget, sampled: usize)
    requires
        budget.remaining_objects == 1,
    ensures
        size_for(budget, sampled) == budget.remaining_size_budget,
        can_size(budget, sampled),
{
}

/// A size can be given wherever the mean is at least 3 MiB and the largest size is still
/// there; and wherever one can be given, it is there.
pub proof fn sizes_can_be_given(budget: SizeBudget, sampled: usize, mean: int)
    requires
        budget.remaining_objects > 1,
        -budget.remaining_objects < 2 * (mean * budget.remaining_objects
            - budget.remaining_size_budget) <= budget.remaining_objects,
    ensures
        3 * 1024 * 1024 <= mean && mean + 3 * 1024 * 1024 <= budget.remaining_size_budget
            ==> can_size(budget, sampled),
        can_size(budget, sampled) ==> 3 * 1024 * 1024 <= mean && 0 <= size_for(budget, sampled)
            <= budget.remaining_size_budget,
        budget.remaining_objects == 0 ==> !can_size(budget, sampled),
{
    lemma_one_mean(budget, mean);
}

/// The budget is as many objects as are asked for, of as many MiB each.
pub proof fn budgets_are_what_was_asked_for(count: nat, mb: nat)
    requires
        count <= usize::MAX,
        mb <= usize::MAX,
    ensures
        budget_of(decimal_text(count), decimal_text(mb)) == Some((count, count * mb * 1_048_576)),
{
    decimal_is_read_back(count);
    decimal_is_read_back(mb);
    assert(count * (mb * 1024 * 1024) == count * mb * 1_048_576) by (nonlinear_arith);
}

/// A resource keeps its identity over updates, and a new one gets it from its bucket alone.
pub proof fn identities_are_stable(
    envelope: RequestEnvelope,
    id: String,
    properties: ResourceProperties,
    other: ResourceProperties,
)
    ensures
        (ResourceRequest::Update {
            envelope,
            physical_resource_id: id,
            old_properties: other,
            properties,
        }).physical_id() == id@,
        (ResourceRequest::Delete {
            envelope,
            physical_resource_id: id,
            properties,
        }).physical_id() == id@,
        (ResourceRequest::Create { envelope, properties }).physical_id() == (
        ResourceRequest::Create { envelope, properties: other }).physical_id()
            <==> properties.bucket_name@ == other.bucket_name@,
{
    let head = "fill-bucket-"@;
    let a = head + properties.bucket_name@;
    let b = head + other.bucket_name@;
    assert(a.skip(head.len() as int) =~= properties.bucket_name@);
    assert(b.skip(head.len() as int) =~= other.bucket_name@);
}

/// Every key that is there is deleted, once for each time that it is listed, and nothing
/// else.
pub proof fn every_listed_key_is_deleted(keys: Seq<Option<String>>, n: nat, key: String)
    requires
        n <= keys.len(),
    ensures
        present(keys, n).contains(key) <==> exists|i: int|
            0 <= i < n && #[trigger] keys[i] == Some(key),
        present(keys, n).to_multiset().count(key) == keys.take(n as int).to_multiset().count(
            Some(key),
        ),
    decreases n,
{
    broadcast use vstd::seq_lib::group_to_multiset_ensures;

    let all = present(keys, n);
    if n > 0 {
        let m = (n - 1) as nat;
        let before = present(keys, m);
        every_listed_key_is_deleted(keys, m, key);
        assert(keys.take(n as int) =~= keys.take(n - 1).push(keys[n - 1]));
        if before.contains(key) {
            let at = choose|at: int| 0 <= at < before.len() && before[at] == key;
            assert(all[at] == key);
        }
        if all.contains(key) && !before.contains(key) {
            let at = choose|at: int| 0 <= at < all.len() && all[at] == key;
            assert(at == before.len());
            assert(keys[n - 1] == Some(key));
        }
        if keys[n - 1] == Some(key) {
            assert(all[before.len() as int] == key);
        }
    } else {
        assert(keys.take(0) =~= Seq::<Option<String>>::empty());
    }
}

/// What a request asks for is done with its own properties: what is created is filled as the
/// request says, what is deleted is emptied as it was, and an update empties what was there
/// before it fills anew.
pub proof fn requests_are_carried_out(
    envelope: RequestEnvelope,
    id: String,
    old: ResourceProperties,
    new: ResourceProperties,
)
    ensures
        work_steps((ResourceRequest::Create { envelope, properties: new }).work()) == seq![
            Step::Fill(new),
        ],
        work_steps(
            (ResourceRequest::Delete {
                envelope,
                physical_resource_id: id,
                properties: old,
            }).work(),
        ) == seq![Step::Empty(old)],
        work_steps(
            (ResourceRequest::Update {
                envelope,
                physical_resource_id: id,
                old_properties: old,
                properties: new,
            }).work(),
        ) == seq![Step::Empty(old), Step::Fill(new)],
{
}

} // verus!
