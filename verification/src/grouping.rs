//! How the responses of a run are grouped into messages.
//!
//! A message carries one group of consecutive responses. A group grows until it
//! is full, by number or by size, or until the next response would take it past
//! the threshold.

use vstd::prelude::*;

use crate::batch::{
    all_delivered, carries, emitted, is_crowded, item_len, joined, lemma_carries_events, sent_events, Sending,
    Waiting, MAX_BATCH_BYTES,
};
use crate::message::{all_events, lemma_all_events_add, ParseWarcResponse, ResponseKind};
use crate::wire::field_len;

verus! {

/// A response, and the length of its encoding.
pub struct Emission {
    /// The response.
    pub response: ParseWarcResponse,
    /// Length of its protobuf encoding.
    pub encoded_len: usize,
}

/// The responses of emissions.
pub open spec fn responses(emissions: Seq<Emission>) -> Seq<ParseWarcResponse> {
    emissions.map_values(|emission: Emission| emission.response)
}

/// Encoded size of the responses as items of one batch.
pub open spec fn items_len(group: Seq<Emission>) -> nat
    decreases group.len(),
{
    if group.len() == 0 {
        0
    } else {
        items_len(group.drop_last()) + item_len(group.last().encoded_len as nat)
    }
}

/// Whether a group is full, by number or by size, where `size` responses fill a
/// batch.
pub open spec fn is_full(group: Seq<Emission>, size: nat) -> bool {
    group.len() >= size || items_len(group) >= MAX_BATCH_BYTES
}

/// Whether a group may share a message: a single response always may, several
/// only as far as they fill a batch and stay within the threshold.
pub open spec fn fits_message(group: Seq<Emission>, size: nat) -> bool {
    ||| group.len() == 1
    ||| 1 < group.len() <= size && items_len(group) <= MAX_BATCH_BYTES
}

/// Whether a group ends ahead of `next`: it is full, or `next` would take it
/// past the threshold.
pub open spec fn ends_before(group: Seq<Emission>, next: Emission, size: nat) -> bool {
    is_full(group, size) || items_len(group) + item_len(next.encoded_len as nat) > MAX_BATCH_BYTES
}

/// Whether responses are grouped as they are to be: each group may share a
/// message, and ends where it has to and no earlier. The last one may end early.
pub open spec fn well_grouped(groups: Seq<Seq<Emission>>, size: nat) -> bool {
    &&& forall|i: int| 0 <= i < groups.len() ==> fits_message(#[trigger] groups[i], size)
    &&& forall|i: int|
        0 <= i < groups.len() - 1 ==> ends_before(#[trigger] groups[i], groups[i + 1][0], size)
}

/// The responses of consecutive groups, in order.
pub open spec fn ungrouped(groups: Seq<Seq<Emission>>) -> Seq<Emission>
    decreases groups.len(),
{
    if groups.len() == 0 {
        Seq::empty()
    } else {
        ungrouped(groups.drop_last()) + groups.last()
    }
}

/// Whether the messages in the log carry these groups, one each.
pub open spec fn carry_groups(log: Seq<Sending>, groups: Seq<Seq<Emission>>) -> bool {
    &&& log.len() == groups.len()
    &&& forall|i: int|
        0 <= i < log.len() ==> carries((#[trigger] log[i]).message, responses(groups[i]))
}

/// The groups, with the responses that wait as the last one if there are any.
pub open spec fn with_pending(groups: Seq<Seq<Emission>>, pending: Seq<Emission>) -> Seq<
    Seq<Emission>,
> {
    if pending.len() == 0 {
        groups
    } else {
        groups.push(pending)
    }
}

/// Whether the last group was ended by being full, so that a new one may begin.
pub open spec fn is_settled(
    groups: Seq<Seq<Emission>>,
    pending: Seq<Emission>,
    size: nat,
) -> bool {
    pending.len() == 0 && groups.len() > 0 ==> is_full(groups.last(), size)
}

/// Whether `waiting` is what is known of the responses that wait.
pub open spec fn waits(waiting: Waiting, pending: Seq<Emission>) -> bool {
    waiting.items == responses(pending) && waiting.bytes == items_len(pending)
}

/// Whether these messages have gone out for the groups, and the pending
/// responses still wait.
pub open spec fn in_progress(
    log: Seq<Sending>,
    groups: Seq<Seq<Emission>>,
    pending: Seq<Emission>,
    size: nat,
) -> bool {
    &&& carry_groups(log, groups)
    &&& well_grouped(with_pending(groups, pending), size)
}

/// Messages carry the events of their groups, in order.
pub proof fn lemma_groups_carry_events(log: Seq<Sending>, groups: Seq<Seq<Emission>>)
    requires
        carry_groups(log, groups),
    ensures
        sent_events(log) == all_events(responses(ungrouped(groups))),
    decreases log.len(),
{
    if log.len() == 0 {
        assert(sent_events(log) =~= all_events(responses(ungrouped(groups))));
    } else {
        let n = log.len() - 1;
        let earlier = groups.drop_last();
        assert(carries(log[n].message, responses(groups[n])));
        assert forall|i: int| 0 <= i < n implies carries(
            (#[trigger] log.drop_last()[i]).message,
            responses(earlier[i]),
        ) by {
            assert(carries(log[i].message, responses(groups[i])));
        }
        lemma_groups_carry_events(log.drop_last(), earlier);
        lemma_carries_events(log.last().message, responses(groups.last()));
        lemma_all_events_add(responses(ungrouped(earlier)), responses(groups.last()));
        assert(responses(ungrouped(groups)) =~= responses(ungrouped(earlier)) + responses(
            groups.last(),
        ));
    }
}

/// One more message carries one more group.
pub proof fn lemma_carry_one_more(
    log: Seq<Sending>,
    groups: Seq<Seq<Emission>>,
    sending: Sending,
    group: Seq<Emission>,
)
    requires
        carry_groups(log, groups),
        carries(sending.message, responses(group)),
    ensures
        carry_groups(log.push(sending), groups.push(group)),
        ungrouped(groups.push(group)) == ungrouped(groups) + group,
{
    assert(groups.push(group).drop_last() =~= groups);
    assert forall|i: int| 0 <= i < log.len() + 1 implies carries(
        (#[trigger] log.push(sending)[i]).message,
        responses(groups.push(group)[i]),
    ) by {
        if i < log.len() {
            assert(carries(log[i].message, responses(groups[i])));
        }
    }
}

/// One more group, where the last one ends ahead of it.
proof fn lemma_group_one_more(groups: Seq<Seq<Emission>>, group: Seq<Emission>, size: nat)
    requires
        well_grouped(groups, size),
        fits_message(group, size),
        groups.len() > 0 ==> ends_before(groups.last(), group[0], size),
    ensures
        well_grouped(groups.push(group), size),
{
    let more = groups.push(group);
    assert forall|i: int| 0 <= i < more.len() implies fits_message(#[trigger] more[i], size) by {
        if i < groups.len() {
            assert(fits_message(groups[i], size));
        }
    }
    assert forall|i: int| 0 <= i < more.len() - 1 implies ends_before(
        #[trigger] more[i],
        more[i + 1][0],
        size,
    ) by {
        if i < groups.len() - 1 {
            assert(ends_before(groups[i], groups[i + 1][0], size));
        }
    }
}

/// What holds of the groups with the pending responses holds without them, and
/// the last group ends ahead of the pending responses.
proof fn lemma_pending_is_last(groups: Seq<Seq<Emission>>, pending: Seq<Emission>, size: nat)
    requires
        well_grouped(with_pending(groups, pending), size),
    ensures
        well_grouped(groups, size),
        pending.len() > 0 && groups.len() > 0 ==> ends_before(groups.last(), pending[0], size),
{
    let all = with_pending(groups, pending);
    assert forall|i: int| 0 <= i < groups.len() implies fits_message(#[trigger] groups[i], size) by {
        assert(fits_message(all[i], size));
    }
    assert forall|i: int| 0 <= i < groups.len() - 1 implies ends_before(
        #[trigger] groups[i],
        groups[i + 1][0],
        size,
    ) by {
        assert(ends_before(all[i], all[i + 1][0], size));
    }
    if pending.len() > 0 && groups.len() > 0 {
        let last = groups.len() - 1;
        assert(ends_before(all[last], all[last + 1][0], size));
    }
}

/// The responses of a group that grows.
proof fn lemma_group_grows(group: Seq<Emission>, emission: Emission)
    ensures
        responses(group.push(emission)) == responses(group).push(emission.response),
        items_len(group.push(emission)) == items_len(group) + item_len(emission.encoded_len as nat),
{
    assert(group.push(emission).drop_last() =~= group);
    assert(responses(group.push(emission)) =~= responses(group).push(emission.response));
}

/// An emission hands over what waits and the new response in groups: after it,
/// the groups handed over so far, followed by what waits, are what they were
/// before, followed by the new response. Where it was refused, the new response
/// may be missing.
pub proof fn lemma_emission_groups(
    log: Seq<Sending>,
    groups: Seq<Seq<Emission>>,
    pending: Seq<Emission>,
    before: Waiting,
    size: nat,
    emission: Emission,
    sendings: Seq<Sending>,
    after: Waiting,
    accepted: bool,
) -> (result: (Seq<Seq<Emission>>, Seq<Emission>))
    requires
        in_progress(log, groups, pending, size),
        is_settled(groups, pending, size),
        waits(before, pending),
        pending.len() == 0 || pending.len() < size,
        before.bytes < MAX_BATCH_BYTES,
        emitted(
            before,
            size,
            emission.response,
            emission.encoded_len as nat,
            sendings,
            after,
            accepted,
        ),
    ensures
        in_progress(log + sendings, result.0, result.1, size),
        accepted ==> is_settled(result.0, result.1, size),
        waits(after, result.1),
        ({
            let now = ungrouped(result.0) + result.1;
            let earlier = ungrouped(groups) + pending;
            now == earlier.push(emission) || (!accepted && now == earlier)
        }),
        accepted ==> all_delivered(sendings),
        !accepted ==> sendings.len() > 0 && !sendings.last().delivered,
{
    let encoded_len = emission.encoded_len as nat;
    let crowded = is_crowded(before, encoded_len);
    let none = Seq::<Emission>::empty();
    let earlier = ungrouped(groups) + pending;
    assert(responses(none) =~= Seq::<ParseWarcResponse>::empty());
    assert(responses(pending).len() == pending.len());
    lemma_pending_is_last(groups, pending, size);
    if size <= 1 {
        lemma_group_grows(none, emission);
        let group = none.push(emission);
        lemma_carry_one_more(log, groups, sendings[0], group);
        lemma_group_one_more(groups, group, size);
        assert(log + sendings =~= log.push(sendings[0]));
        let more = groups.push(group);
        assert(ungrouped(more) + none =~= earlier.push(emission));
        assert(pending =~= none);
        (more, none)
    } else {
        let (log1, groups1, kept) = if crowded {
            (log.push(sendings[0]), groups.push(pending), none)
        } else {
            (log, groups, pending)
        };
        if crowded {
            lemma_carry_one_more(log, groups, sendings[0], pending);
        }
        assert(ungrouped(groups1) + kept =~= earlier);
        assert(well_grouped(groups1, size));
        assert(waits(joined(before, encoded_len), kept));
        if crowded && !sendings[0].delivered {
            assert(log + sendings =~= log1);
            (groups1, none)
        } else {
            let first: int = if crowded {
                1
            } else {
                0
            };
            let group = kept.push(emission);
            lemma_group_grows(kept, emission);
            assert(group[0] == if kept.len() == 0 {
                emission
            } else {
                kept[0]
            });
            assert(fits_message(group, size));
            lemma_group_one_more(groups1, group, size);
            if sendings.len() == first {
                assert(log + sendings =~= log1);
                assert(ungrouped(groups1) + group =~= earlier.push(emission));
                (groups1, group)
            } else {
                lemma_carry_one_more(log1, groups1, sendings[first], group);
                assert(log + sendings =~= log1.push(sendings[first]));
                let more = groups1.push(group);
                assert(ungrouped(more) + none =~= earlier.push(emission));
                assert(more.last() == group);
                (more, none)
            }
        }
    }
}

/// Groups of few responses: there are no more groups than responses, and a
/// single one goes out as it is.
pub proof fn lemma_few_responses(log: Seq<Sending>, groups: Seq<Seq<Emission>>, size: nat)
    requires
        carry_groups(log, groups),
        well_grouped(groups, size),
    ensures
        groups.len() <= ungrouped(groups).len(),
        ungrouped(groups).len() == 1 ==> {
            &&& log.len() == 1
            &&& log[0].message == ungrouped(groups)[0].response
        },
    decreases log.len(),
{
    if log.len() > 0 {
        let n = log.len() - 1;
        let earlier = groups.drop_last();
        assert(carries(log[n].message, responses(groups[n])));
        assert(fits_message(groups[n], size));
        assert forall|i: int| 0 <= i < n implies carries(
            (#[trigger] log.drop_last()[i]).message,
            responses(earlier[i]),
        ) by {
            assert(carries(log[i].message, responses(groups[i])));
        }
        assert(groups =~= earlier.push(groups[n]));
        lemma_pending_is_last(earlier, groups[n], size);
        lemma_few_responses(log.drop_last(), earlier, size);
    }
}

/// The encoded length of the responses as fields of one batch.
pub open spec fn fields_len(group: Seq<Emission>) -> nat
    decreases group.len(),
{
    if group.len() == 0 {
        0
    } else {
        fields_len(group.drop_last()) + field_len(group.last().encoded_len as nat)
    }
}

/// What a group counts is what it takes on the wire, as far as a `usize` counts.
pub proof fn lemma_items_are_fields(group: Seq<Emission>)
    ensures
        items_len(group) < usize::MAX ==> items_len(group) == fields_len(group),
        items_len(group) <= fields_len(group),
    decreases group.len(),
{
    if group.len() > 0 {
        lemma_items_are_fields(group.drop_last());
    }
}

/// The responses of groups are those of the groups put end to end.
proof fn lemma_ungrouped_is_flatten(groups: Seq<Seq<Emission>>)
    ensures
        ungrouped(groups) == groups.flatten(),
    decreases groups.len(),
{
    groups.lemma_flatten_and_flatten_alt_are_equivalent();
    if groups.len() > 0 {
        lemma_ungrouped_is_flatten(groups.drop_last());
        groups.drop_last().lemma_flatten_and_flatten_alt_are_equivalent();
    } else {
        assert(ungrouped(groups) =~= groups.flatten());
    }
}

/// Whether a message is that of a group: a single response is the message itself,
/// several are the items of a batch, in order.
pub open spec fn is_message_of(message: ParseWarcResponse, group: Seq<Emission>) -> bool {
    &&& group.len() >= 1
    &&& group.len() == 1 ==> message == group[0].response
    &&& group.len() > 1 ==> {
        &&& message.kind matches Some(ResponseKind::Batch(batch))
        &&& batch.items@.len() == group.len()
        &&& forall|j: int|
            0 <= j < group.len() ==> #[trigger] batch.items@[j] == group[j].response
    }
}

/// Whether a group is as large as it may be and no larger: several responses are
/// no more than fill a batch and, with their framing, no longer than 2 MiB; and
/// another group follows only where this one has as many as fill a batch, or would
/// be longer than 2 MiB with the next response.
pub open spec fn is_as_large_as_may_be(
    groups: Seq<Seq<Emission>>,
    i: int,
    size: nat,
) -> bool {
    let group = groups[i];
    &&& group.len() > 1 ==> group.len() <= size && fields_len(group) <= 2 * 1024 * 1024
    &&& i + 1 < groups.len() ==> {
        ||| group.len() >= size
        ||| fields_len(group) + field_len(groups[i + 1][0].encoded_len as nat) > 2 * 1024 * 1024
    }
}

/// Batches are as large as they may be and no larger: the responses are cut into
/// groups, one for each message.
pub proof fn law_batches_are_as_large_as_they_may_be(
    log: Seq<Sending>,
    groups: Seq<Seq<Emission>>,
    size: nat,
)
    requires
        carry_groups(log, groups),
        well_grouped(groups, size),
    ensures
        log.len() == groups.len(),
        ungrouped(groups) == groups.flatten(),
        forall|i: int|
            0 <= i < groups.len() ==> {
                &&& is_message_of(log[i].message, #[trigger] groups[i])
                &&& is_as_large_as_may_be(groups, i, size)
            },
{
    lemma_ungrouped_is_flatten(groups);
    assert forall|i: int| 0 <= i < groups.len() implies {
        &&& is_message_of(log[i].message, #[trigger] groups[i])
        &&& is_as_large_as_may_be(groups, i, size)
    } by {
        let group = groups[i];
        assert(carries(log[i].message, responses(group)));
        assert(fits_message(group, size));
        lemma_items_are_fields(group);
        if group.len() == 1 {
            assert(responses(group)[0] == group[0].response);
        } else {
            let batch = log[i].message.kind->0->Batch_0;
            assert(batch.items@ == responses(group));
            assert forall|j: int| 0 <= j < group.len() implies #[trigger] batch.items@[j]
                == group[j].response by {
                assert(responses(group)[j] == group[j].response);
            }
        }
        if i + 1 < groups.len() {
            assert(ends_before(group, groups[i + 1][0], size));
        }
    }
}

} // verus!
