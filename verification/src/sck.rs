//! Capture of the audio of single applications: which of them can be chosen, and how their
//! sample buffers reach the ring buffer.

use vstd::prelude::*;
use vstd::string::StringExecFns;

use crate::pcm::from_bytes;
use crate::ring::{push_samples, SampleProducer};
use crate::text::{append_decimal, text_at_most, to_lowercase};

verus! {

/// An application that can be captured.
#[derive(Debug, Clone, PartialEq, Eq)]
pub struct AppSource {
    pub name: String,
    pub bundle_id: String,
    pub pid: i32,
}

/// One buffer of captured audio: little-endian samples of `number_channels` channels.
#[derive(Debug, Clone, PartialEq, Eq)]
pub struct AudioBuffer {
    pub number_channels: u32,
    pub data: Vec<u8>,
}

/// What applications are ordered by.
pub open spec fn sort_key(app: AppSource) -> Seq<char> {
    crate::text::folded(app.name@)
}

/// `a` may stand before `b`.
pub open spec fn in_order(a: AppSource, b: AppSource) -> bool {
    crate::text::text_le(sort_key(a), sort_key(b))
}

/// The applications that have a name.
pub open spec fn named(apps: Seq<AppSource>) -> Seq<AppSource> {
    apps.filter(|app: AppSource| app.name@.len() > 0)
}

/// Ordered applications with one more, which stands behind those of the same key.
pub open spec fn insert_ordered(apps: Seq<AppSource>, app: AppSource) -> Seq<AppSource>
    decreases apps.len(),
{
    if apps.len() == 0 || in_order(apps.last(), app) {
        apps.push(app)
    } else {
        insert_ordered(apps.drop_last(), app).push(apps.last())
    }
}

/// The applications by name without regard to case; those of the same key keep their order.
pub open spec fn ordered(apps: Seq<AppSource>) -> Seq<AppSource>
    decreases apps.len(),
{
    if apps.len() == 0 {
        apps
    } else {
        insert_ordered(ordered(apps.drop_last()), apps.last())
    }
}

/// The applications without those that follow one with the same process.
pub open spec fn without_repeats(apps: Seq<AppSource>) -> Seq<AppSource>
    decreases apps.len(),
{
    if apps.len() == 0 {
        apps
    } else {
        let before = without_repeats(apps.drop_last());
        if before.len() > 0 && before.last().pid == apps.last().pid {
            before
        } else {
            before.push(apps.last())
        }
    }
}

/// The applications that are offered: those with a name, ordered, without repeats.
pub open spec fn capturable(apps: Seq<AppSource>) -> Seq<AppSource> {
    without_repeats(ordered(named(apps)))
}

/// The application's name holds the query, without regard to case.
pub open spec fn app_matches(app: AppSource, query: Seq<char>) -> bool {
    crate::text::contains_text(sort_key(app), crate::text::folded(query))
}

/// `found` is the first of the applications that matches the query, if one does.
pub open spec fn is_first_app(apps: Seq<AppSource>, query: Seq<char>, found: Option<AppSource>) -> bool {
    match found {
        Some(app) => exists|i: int|
            0 <= i < apps.len() && #[trigger] apps[i] == app && app_matches(app, query)
                && forall|j: int| 0 <= j < i ==> !app_matches(#[trigger] apps[j], query),
        None => forall|j: int| 0 <= j < apps.len() ==> !app_matches(#[trigger] apps[j], query),
    }
}

/// The sample at position `at`, zero past the end.
pub open spec fn sample_or_zero(samples: Seq<u32>, at: int) -> u32 {
    if 0 <= at < samples.len() {
        samples[at]
    } else {
        0
    }
}

/// The larger of two lengths.
pub open spec fn longer(a: nat, b: nat) -> nat {
    if a >= b {
        a
    } else {
        b
    }
}

/// Two channels as frames of two samples; the shorter one is filled up with zeros.
pub open spec fn interleaved_pair(a: Seq<u32>, b: Seq<u32>) -> Seq<u32> {
    Seq::new(
        2 * longer(a.len(), b.len()),
        |i: int|
            if i % 2 == 0 {
                sample_or_zero(a, i / 2)
            } else {
                sample_or_zero(b, i / 2)
            },
    )
}

/// The buffers hold one channel each.
pub open spec fn is_planar(buffers: Seq<AudioBuffer>) -> bool {
    buffers.len() >= 2 && buffers[0].number_channels == 1
}

/// What is offered to the ring buffer, piece by piece: one interleaved piece for the first
/// two channels of planar audio, else the samples of every buffer.
pub open spec fn offered(buffers: Seq<AudioBuffer>) -> Seq<Seq<u32>> {
    if is_planar(buffers) {
        seq![
            interleaved_pair(
                crate::pcm::pcm_samples(buffers[0].data@),
                crate::pcm::pcm_samples(buffers[1].data@),
            ),
        ]
    } else {
        buffers.map_values(|buffer: AudioBuffer| crate::pcm::pcm_samples(buffer.data@))
    }
}

/// The beginnings of the pieces, as long as `counts` says, one after the other.
pub open spec fn beginnings(pieces: Seq<Seq<u32>>, counts: Seq<int>) -> Seq<u32>
    decreases pieces.len(),
{
    if pieces.len() == 0 {
        Seq::empty()
    } else {
        beginnings(pieces.drop_last(), counts.drop_last()) + pieces.last().take(counts.last())
    }
}

/// There is one count for each piece, none above the piece's length.
pub open spec fn are_counts(pieces: Seq<Seq<u32>>, counts: Seq<int>) -> bool {
    &&& counts.len() == pieces.len()
    &&& forall|i: int| 0 <= i < counts.len() ==> 0 <= #[trigger] counts[i] <= pieces[i].len()
}

/// Each piece was offered when those before it had been, and as much of it went in as
/// `counts` says.
pub open spec fn in_turn(
    before: SampleProducer,
    pieces: Seq<Seq<u32>>,
    counts: Seq<int>,
    after: SampleProducer,
) -> bool
    decreases pieces.len(),
{
    if pieces.len() == 0 {
        after == before
    } else {
        exists|last: SampleProducer|
            in_turn(before, pieces.drop_last(), counts.drop_last(), last)
                && #[trigger] crate::ring::gave(last, pieces.last(), counts.last(), after)
    }
}

/// The producer after it was offered the pieces one after the other and took `counts` of
/// each.
pub open spec fn fed(
    before: SampleProducer,
    pieces: Seq<Seq<u32>>,
    counts: Seq<int>,
    after: SampleProducer,
) -> bool {
    &&& are_counts(pieces, counts)
    &&& in_turn(before, pieces, counts, after)
    &&& crate::ring::pushed(after) == crate::ring::pushed(before) + beginnings(pieces, counts)
    &&& crate::ring::producer_stream(after) == crate::ring::producer_stream(before)
    &&& crate::ring::producer_capacity(after) == crate::ring::producer_capacity(before)
    &&& crate::ring::pushed(before).is_prefix_of(crate::ring::producer_stream(before))
        ==> crate::ring::pushed(after).is_prefix_of(crate::ring::producer_stream(after))
}

/// A process number in decimal, with a sign if it is negative.
pub open spec fn signed_decimal(n: int) -> Seq<char> {
    if n < 0 {
        "-"@ + crate::text::decimal((-n) as nat)
    } else {
        crate::text::decimal(n as nat)
    }
}

/// The answer where an application that was chosen has ended since.
pub open spec fn not_running_message(name: Seq<char>, pid: int) -> Seq<char> {
    "Application '"@ + name + "' (PID "@ + signed_decimal(pid) + ") is no longer running"@
}

/// One more piece is offered when those before it had been.
proof fn lemma_next_in_turn(
    before: SampleProducer,
    pieces: Seq<Seq<u32>>,
    counts: Seq<int>,
    last: SampleProducer,
    piece: Seq<u32>,
    count: int,
    after: SampleProducer,
)
    requires
        in_turn(before, pieces, counts, last),
        crate::ring::gave(last, piece, count, after),
    ensures
        in_turn(before, pieces.push(piece), counts.push(count), after),
{
    let more = pieces.push(piece);
    let taken = counts.push(count);
    assert(more.drop_last() =~= pieces);
    assert(taken.drop_last() =~= counts);
    assert(crate::ring::gave(last, more.last(), taken.last(), after));
}

/// Inserting at the place behind the last application that may stand before is inserting in
/// order.
proof fn lemma_insert_at(apps: Seq<AppSource>, app: AppSource, at: int)
    requires
        0 <= at <= apps.len(),
        at == 0 || in_order(apps[at - 1], app),
        forall|k: int| at <= k < apps.len() ==> !in_order(#[trigger] apps[k], app),
    ensures
        insert_ordered(apps, app) == apps.insert(at, app),
    decreases apps.len(),
{
    if at < apps.len() {
        assert(!in_order(apps[apps.len() - 1], app));
        let shorter = apps.drop_last();
        assert forall|k: int| at <= k < shorter.len() implies !in_order(#[trigger] shorter[k], app) by {
            assert(shorter[k] == apps[k]);
        }
        lemma_insert_at(shorter, app, at);
        assert(apps.insert(at, app) =~= shorter.insert(at, app).push(apps.last()));
    } else {
        assert(apps.insert(at, app) =~= apps.push(app));
    }
}

/// The applications that have a name.
fn keep_named(apps: Vec<AppSource>) -> (kept: Vec<AppSource>)
    ensures
        kept@ == named(apps@),
{
    let ghost all = apps@;
    let ghost has_name = |app: AppSource| app.name@.len() > 0;
    let mut kept: Vec<AppSource> = Vec::new();
    for app in it: apps
        invariant
            it.seq() == all,
            has_name == (|app: AppSource| app.name@.len() > 0),
            kept@ == all.take(it.index()).filter(has_name),
    {
        proof {
            let i = it.index();
            assert(all.take(i + 1) =~= all.take(i).push(app));
            assert(all.take(i + 1).drop_last() =~= all.take(i));
            reveal_with_fuel(Seq::filter, 2);
        }
        if !app.name.as_str().is_empty() {
            kept.push(app);
        }
    }
    assert(all.take(all.len() as int) =~= all);
    kept
}

/// Puts the applications in order.
fn sort_apps(apps: Vec<AppSource>) -> (sorted: Vec<AppSource>)
    ensures
        sorted@ == ordered(apps@),
{
    let ghost all = apps@;
    let mut sorted: Vec<AppSource> = Vec::new();
    let mut keys: Vec<String> = Vec::new();
    for app in it: apps
        invariant
            it.seq() == all,
            sorted@ == ordered(all.take(it.index())),
            keys@.len() == sorted@.len(),
            forall|k: int| 0 <= k < keys@.len() ==> (#[trigger] keys@[k])@ == sort_key(sorted@[k]),
    {
        let key = to_lowercase(app.name.as_str());
        let mut at: usize = sorted.len();
        while at > 0 && !text_at_most(keys[at - 1].as_str(), key.as_str())
            invariant
                at <= sorted@.len(),
                keys@.len() == sorted@.len(),
                key@ == sort_key(app),
                forall|k: int|
                    0 <= k < keys@.len() ==> (#[trigger] keys@[k])@ == sort_key(sorted@[k]),
                forall|k: int| at <= k < sorted@.len() ==> !in_order(#[trigger] sorted@[k], app),
            decreases at,
        {
            at -= 1;
        }
        proof {
            let i = it.index();
            lemma_insert_at(sorted@, app, at as int);
            assert(all.take(i + 1).drop_last() =~= all.take(i));
            assert(all.take(i + 1).last() == app);
        }
        sorted.insert(at, app);
        keys.insert(at, key);
    }
    assert(all.take(all.len() as int) =~= all);
    sorted
}

/// Drops the applications that follow one with the same process.
fn drop_repeats(apps: Vec<AppSource>) -> (kept: Vec<AppSource>)
    ensures
        kept@ == without_repeats(apps@),
{
    let ghost all = apps@;
    let mut kept: Vec<AppSource> = Vec::new();
    for app in it: apps
        invariant
            it.seq() == all,
            kept@ == without_repeats(all.take(it.index())),
    {
        proof {
            let i = it.index();
            assert(all.take(i + 1).drop_last() =~= all.take(i));
            assert(all.take(i + 1).last() == app);
        }
        if kept.len() == 0 || kept[kept.len() - 1].pid != app.pid {
            kept.push(app);
        }
    }
    assert(all.take(all.len() as int) =~= all);
    kept
}

/// The running applications that can be captured, as they are offered.
pub fn list_capturable_apps(apps: Vec<AppSource>) -> (offer: Vec<AppSource>)
    ensures
        offer@ == capturable(apps@),
{
    drop_repeats(sort_apps(keep_named(apps)))
}

/// Appends a process number.
fn append_signed(text: &mut String, n: i32)
    ensures
        final(text)@ == old(text)@ + signed_decimal(n as int),
{
    let wide: i64 = n as i64;
    if wide < 0 {
        text.append("-");
        append_decimal(text, (-wide) as u64);
    } else {
        append_decimal(text, wide as u64);
    }
    assert(text@ =~= old(text)@ + signed_decimal(n as int));
}

/// The place of a chosen application among the processes that run now.
pub fn locate_app(app: &AppSource, running: &Vec<i32>) -> (place: Result<usize, String>)
    ensures
        match place {
            Ok(i) => i < running@.len() && running@[i as int] == app.pid && forall|j: int|
                0 <= j < i ==> running@[j] != app.pid,
            Err(message) => !running@.contains(app.pid) && message@ == not_running_message(
                app.name@,
                app.pid as int,
            ),
        },
{
    let mut i: usize = 0;
    while i < running.len()
        invariant
            i <= running@.len(),
            forall|j: int| 0 <= j < i ==> running@[j] != app.pid,
        decreases running@.len() - i,
    {
        if running[i] == app.pid {
            return Ok(i);
        }
        i += 1;
    }
    let mut message = String::new();
    message.append("Application '");
    message.append(app.name.as_str());
    message.append("' (PID ");
    append_signed(&mut message, app.pid);
    message.append(") is no longer running");
    assert(message@ =~= not_running_message(app.name@, app.pid as int));
    Err(message)
}

/// Two channels as frames of two samples.
pub fn interleave_pair(a: &Vec<u32>, b: &Vec<u32>) -> (samples: Vec<u32>)
    ensures
        samples@ == interleaved_pair(a@, b@),
{
    let frames: usize = if a.len() >= b.len() {
        a.len()
    } else {
        b.len()
    };
    let mut samples: Vec<u32> = Vec::new();
    let mut f: usize = 0;
    while f < frames
        invariant
            f <= frames,
            frames == longer(a@.len(), b@.len()),
            samples@.len() == 2 * f,
            forall|i: int|
                0 <= i < samples@.len() ==> #[trigger] samples@[i] == interleaved_pair(a@, b@)[i],
        decreases frames - f,
    {
        samples.push(
            if f < a.len() {
                a[f]
            } else {
                0
            },
        );
        samples.push(
            if f < b.len() {
                b[f]
            } else {
                0
            },
        );
        f += 1;
    }
    assert(samples@ =~= interleaved_pair(a@, b@));
    samples
}

/// Puts the samples of captured buffers into the ring buffer, always interleaved.
pub fn push_audio_samples(buffers: &Vec<AudioBuffer>, producer: &mut SampleProducer)
    ensures
        exists|counts: Seq<int>| #[trigger]
            fed(*old(producer), offered(buffers@), counts, *final(producer)),
{
    if buffers.len() >= 2 && buffers[0].number_channels == 1 {
        let left = from_bytes(buffers[0].data.as_slice());
        let right = from_bytes(buffers[1].data.as_slice());
        let samples = interleave_pair(&left, &right);
        let count: usize = push_samples(producer, samples.as_slice());
        proof {
            let pieces = offered(buffers@);
            let counts = seq![count as int];
            assert(pieces.drop_last() =~= Seq::<Seq<u32>>::empty());
            assert(beginnings(pieces.drop_last(), counts.drop_last()) == Seq::<u32>::empty());
            assert(beginnings(pieces, counts) =~= samples@.take(count as int));
            lemma_next_in_turn(
                *old(producer),
                pieces.drop_last(),
                counts.drop_last(),
                *old(producer),
                samples@,
                count as int,
                *producer,
            );
            assert(pieces =~= pieces.drop_last().push(samples@));
            assert(counts =~= counts.drop_last().push(count as int));
            assert(fed(*old(producer), pieces, counts, *producer));
        }
        return;
    }
    let ghost pieces = offered(buffers@);
    let ghost mut counts: Seq<int> = Seq::empty();
    let mut i: usize = 0;
    proof {
        assert(pieces.take(0) =~= Seq::<Seq<u32>>::empty());
        assert(beginnings(pieces.take(0), counts) == Seq::<u32>::empty());
        assert(crate::ring::pushed(*old(producer)) + Seq::<u32>::empty()
            =~= crate::ring::pushed(*old(producer)));
    }
    while i < buffers.len()
        invariant
            i <= buffers@.len(),
            pieces == offered(buffers@),
            !is_planar(buffers@),
            fed(*old(producer), pieces.take(i as int), counts, *producer),
        decreases buffers@.len() - i,
    {
        let samples = from_bytes(buffers[i].data.as_slice());
        let ghost before = *producer;
        let count: usize = push_samples(producer, samples.as_slice());
        i += 1;
        proof {
            let more = counts.push(count as int);
            let shown = pieces.take(i as int);
            assert(shown.last() == samples@);
            assert(shown.drop_last() =~= pieces.take(i - 1));
            assert(more.drop_last() =~= counts);
            assert(beginnings(shown, more) == beginnings(pieces.take(i - 1), counts)
                + samples@.take(count as int));
            assert(crate::ring::pushed(*producer) =~= crate::ring::pushed(*old(producer))
                + beginnings(shown, more));
            lemma_next_in_turn(
                *old(producer),
                pieces.take(i - 1),
                counts,
                before,
                samples@,
                count as int,
                *producer,
            );
            assert(shown =~= pieces.take(i - 1).push(samples@));
            assert forall|k: int| 0 <= k < more.len() implies 0 <= #[trigger] more[k]
                <= shown[k].len() by {
                if k < i - 1 {
                    assert(counts[k] == more[k]);
                }
            }
            counts = more;
        }
    }
    proof {
        assert(pieces.take(i as int) =~= pieces);
    }
}

/// The applications stand in order.
pub open spec fn is_ordered(apps: Seq<AppSource>) -> bool {
    forall|i: int, j: int| 0 <= i < j < apps.len() ==> in_order(#[trigger] apps[i], #[trigger] apps[j])
}

proof fn lemma_insert_keeps_order(apps: Seq<AppSource>, app: AppSource)
    requires
        is_ordered(apps),
    ensures
        is_ordered(insert_ordered(apps, app)),
        insert_ordered(apps, app).to_multiset() == apps.to_multiset().insert(app),
        forall|i: int|
            0 <= i < insert_ordered(apps, app).len() ==> {
                let x = #[trigger] insert_ordered(apps, app)[i];
                x == app || apps.contains(x)
            },
    decreases apps.len(),
{
    apps.to_multiset_ensures();
    let result = insert_ordered(apps, app);
    if apps.len() == 0 || in_order(apps.last(), app) {
        assert forall|i: int, j: int| 0 <= i < j < result.len() implies in_order(
            #[trigger] result[i],
            #[trigger] result[j],
        ) by {
            if j == apps.len() {
                if i < apps.len() - 1 {
                    assert(in_order(apps[i], apps[apps.len() - 1]));
                    crate::text::law_text_order_transitive(
                        sort_key(apps[i]),
                        sort_key(apps.last()),
                        sort_key(app),
                    );
                }
            } else {
                assert(in_order(apps[i], apps[j]));
            }
        }
    } else {
        let shorter = apps.drop_last();
        let inner = insert_ordered(shorter, app);
        assert(is_ordered(shorter)) by {
            assert forall|i: int, j: int| 0 <= i < j < shorter.len() implies in_order(
                #[trigger] shorter[i],
                #[trigger] shorter[j],
            ) by {
                assert(in_order(apps[i], apps[j]));
            }
        }
        lemma_insert_keeps_order(shorter, app);
        crate::text::law_text_order_total(sort_key(apps.last()), sort_key(app));
        assert forall|i: int, j: int| 0 <= i < j < result.len() implies in_order(
            #[trigger] result[i],
            #[trigger] result[j],
        ) by {
            if j == inner.len() {
                let x = inner[i];
                if x != app {
                    assert(shorter.contains(x));
                    let k = choose|k: int| 0 <= k < shorter.len() && shorter[k] == x;
                    assert(in_order(apps[k], apps[apps.len() - 1]));
                }
            } else {
                assert(in_order(inner[i], inner[j]));
            }
        }
        shorter.to_multiset_ensures();
        inner.to_multiset_ensures();
        assert(apps =~= shorter.push(apps.last()));
        assert(result.to_multiset() =~= apps.to_multiset().insert(app));
        assert forall|i: int| 0 <= i < result.len() implies {
            let x = #[trigger] result[i];
            x == app || apps.contains(x)
        } by {
            if i < inner.len() {
                let x = inner[i];
                if x != app {
                    assert(shorter.contains(x));
                    let k = choose|k: int| 0 <= k < shorter.len() && shorter[k] == x;
                    assert(apps[k] == x);
                }
            } else {
                assert(result[i] == apps[apps.len() - 1]);
            }
        }
    }
}

/// Ordering puts the applications in order and keeps every one of them as often as it was
/// there.
pub proof fn law_ordering(apps: Seq<AppSource>)
    ensures
        is_ordered(ordered(apps)),
        ordered(apps).to_multiset() == apps.to_multiset(),
    decreases apps.len(),
{
    if apps.len() > 0 {
        let shorter = apps.drop_last();
        law_ordering(shorter);
        lemma_insert_keeps_order(ordered(shorter), apps.last());
        shorter.to_multiset_ensures();
        assert(apps =~= shorter.push(apps.last()));
    }
}

/// The applications with this key, in their order.
pub open spec fn with_key(apps: Seq<AppSource>, key: Seq<char>) -> Seq<AppSource> {
    apps.filter(|app: AppSource| sort_key(app) == key)
}

proof fn lemma_insert_is_stable(apps: Seq<AppSource>, app: AppSource, key: Seq<char>)
    requires
        is_ordered(apps),
    ensures
        with_key(insert_ordered(apps, app), key) == with_key(apps.push(app), key),
    decreases apps.len(),
{
    let has_key = |a: AppSource| sort_key(a) == key;
    reveal_with_fuel(Seq::filter, 3);
    if apps.len() > 0 && !in_order(apps.last(), app) {
        let shorter = apps.drop_last();
        let last = apps.last();
        assert(is_ordered(shorter)) by {
            assert forall|i: int, j: int| 0 <= i < j < shorter.len() implies in_order(
                #[trigger] shorter[i],
                #[trigger] shorter[j],
            ) by {
                assert(in_order(apps[i], apps[j]));
            }
        }
        lemma_insert_is_stable(shorter, app, key);
        let inner = insert_ordered(shorter, app);
        assert(insert_ordered(apps, app).drop_last() =~= inner);
        assert(shorter.push(app).drop_last() =~= shorter);
        assert(apps.push(app).drop_last() =~= apps);
        // The last one and the new one have different keys, so at most one of them counts.
        crate::text::law_text_order_total(sort_key(last), sort_key(last));
        assert(sort_key(last) != sort_key(app));
    }
}

/// Applications with the same key keep the order in which they were given.
pub proof fn law_ordering_is_stable(apps: Seq<AppSource>, key: Seq<char>)
    ensures
        with_key(ordered(apps), key) == with_key(apps, key),
    decreases apps.len(),
{
    if apps.len() > 0 {
        let shorter = apps.drop_last();
        let before = ordered(shorter);
        law_ordering(shorter);
        law_ordering_is_stable(shorter, key);
        lemma_insert_is_stable(before, apps.last(), key);
        reveal_with_fuel(Seq::filter, 2);
        assert(before.push(apps.last()).drop_last() =~= before);
    }
}

/// No application of the offer stands next to one of the same process, and each comes from
/// the list.
pub proof fn law_no_repeats(apps: Seq<AppSource>)
    ensures
        without_repeats(apps).len() <= apps.len(),
        apps.len() > 0 ==> without_repeats(apps).len() > 0,
        apps.len() > 0 ==> without_repeats(apps).last().pid == apps.last().pid,
        forall|i: int|
            0 < i < without_repeats(apps).len() ==> (#[trigger] without_repeats(apps)[i]).pid
                != without_repeats(apps)[i - 1].pid,
        forall|i: int|
            0 <= i < without_repeats(apps).len() ==> apps.contains(
                #[trigger] without_repeats(apps)[i],
            ),
    decreases apps.len(),
{
    if apps.len() > 0 {
        let shorter = apps.drop_last();
        law_no_repeats(shorter);
        let kept = without_repeats(apps);
        let before = without_repeats(shorter);
        assert forall|i: int| 0 <= i < kept.len() implies apps.contains(#[trigger] kept[i]) by {
            if i < before.len() {
                assert(shorter.contains(before[i]));
                let k = choose|k: int| 0 <= k < shorter.len() && shorter[k] == before[i];
                assert(apps[k] == kept[i]);
            } else {
                assert(apps[apps.len() - 1] == kept[i]);
            }
        }
    }
}

/// Every application that is offered has a name and runs.
pub proof fn law_offer_is_named(apps: Seq<AppSource>, i: int)
    requires
        0 <= i < capturable(apps).len(),
    ensures
        capturable(apps)[i].name@.len() > 0,
        apps.contains(capturable(apps)[i]),
{
    let has_name = |app: AppSource| app.name@.len() > 0;
    let some = named(apps);
    let sorted = ordered(some);
    let app = capturable(apps)[i];
    law_no_repeats(sorted);
    law_ordering(some);
    assert(sorted.contains(app));
    sorted.to_multiset_ensures();
    some.to_multiset_ensures();
    assert(sorted.to_multiset().count(app) > 0);
    assert(some.to_multiset().count(app) > 0);
    assert(some.contains(app));
    let k = choose|k: int| 0 <= k < some.len() && some[k] == app;
    apps.lemma_filter_pred(has_name, k);
    assert(apps.filter(has_name).contains(app));
    apps.lemma_filter_contains_rev(has_name, app);
}

/// Planar audio of two channels of the same length is interleaved without loss: each channel
/// comes back when the frames are split again.
pub proof fn law_pair_splits_back(a: Seq<u32>, b: Seq<u32>)
    requires
        a.len() == b.len(),
    ensures
        crate::meter::channel_of(interleaved_pair(a, b), 0, 2) == a,
        crate::meter::channel_of(interleaved_pair(a, b), 1, 2) == b,
{
    assert(crate::meter::channel_of(interleaved_pair(a, b), 0, 2) =~= a);
    assert(crate::meter::channel_of(interleaved_pair(a, b), 1, 2) =~= b);
}

/// Applications are compared by their names in lower case, and a query means an application
/// whose name holds it, both in lower case.
pub proof fn law_apps_go_by_name(a: AppSource, b: AppSource, query: Seq<char>)
    ensures
        sort_key(a) == crate::text::folded(a.name@),
        in_order(a, b) <==> crate::text::text_le(
            crate::text::folded(a.name@),
            crate::text::folded(b.name@),
        ),
        app_matches(a, query) <==> crate::text::contains_text(
            crate::text::folded(a.name@),
            crate::text::folded(query),
        ),
{
}

/// One more application is kept behind the others if it has a name.
pub proof fn law_named_keeps_order(apps: Seq<AppSource>, app: AppSource)
    ensures
        named(Seq::empty()).len() == 0,
        app.name@.len() > 0 ==> named(apps.push(app)) == named(apps).push(app),
        app.name@.len() == 0 ==> named(apps.push(app)) == named(apps),
{
    reveal_with_fuel(Seq::filter, 2);
    assert(apps.push(app).drop_last() =~= apps);
}

/// One more application is kept if its process is another than that of the application
/// directly before it, and dropped otherwise.
pub proof fn law_repeats_follow_their_process(apps: Seq<AppSource>, app: AppSource)
    ensures
        without_repeats(Seq::empty()).len() == 0,
        apps.len() == 0 || apps.last().pid != app.pid ==> without_repeats(apps.push(app))
            == without_repeats(apps).push(app),
        apps.len() > 0 && apps.last().pid == app.pid ==> without_repeats(apps.push(app))
            == without_repeats(apps),
{
    law_no_repeats(apps);
    assert(apps.push(app).drop_last() =~= apps);
}

/// A process that is kept once is not lost.
proof fn lemma_process_is_kept(apps: Seq<AppSource>, k: int)
    requires
        0 <= k < apps.len(),
    ensures
        exists|m: int|
            0 <= m < without_repeats(apps).len() && (#[trigger] without_repeats(apps)[m]).pid
                == apps[k].pid,
    decreases apps.len(),
{
    let shorter = apps.drop_last();
    let kept = without_repeats(apps);
    let before = without_repeats(shorter);
    if k < shorter.len() {
        lemma_process_is_kept(shorter, k);
        let m = choose|m: int| 0 <= m < before.len() && (#[trigger] before[m]).pid == shorter[k].pid;
        assert(kept[m] == before[m]);
    } else {
        law_no_repeats(apps);
        assert(kept[kept.len() - 1].pid == apps[k].pid);
    }
}

/// What is kept stands in the order in which it was.
proof fn lemma_kept_in_order(apps: Seq<AppSource>)
    requires
        is_ordered(apps),
    ensures
        is_ordered(without_repeats(apps)),
        apps.len() > 0 ==> in_order(without_repeats(apps).last(), apps.last()),
        forall|i: int|
            0 <= i < without_repeats(apps).len() ==> in_order(
                #[trigger] without_repeats(apps)[i],
                apps.last(),
            ),
    decreases apps.len(),
{
    if apps.len() > 0 {
        let shorter = apps.drop_last();
        let last = apps.last();
        let kept = without_repeats(apps);
        let before = without_repeats(shorter);
        assert(is_ordered(shorter)) by {
            assert forall|i: int, j: int| 0 <= i < j < shorter.len() implies in_order(
                #[trigger] shorter[i],
                #[trigger] shorter[j],
            ) by {
                assert(in_order(apps[i], apps[j]));
            }
        }
        lemma_kept_in_order(shorter);
        law_no_repeats(shorter);
        crate::text::law_text_order_total(sort_key(last), sort_key(last));
        assert forall|i: int| 0 <= i < before.len() implies in_order(#[trigger] before[i], last) by {
            assert(shorter.contains(before[i]));
            let k = choose|k: int| 0 <= k < shorter.len() && shorter[k] == before[i];
            assert(in_order(apps[k], apps[apps.len() - 1]));
        }
        assert forall|i: int| 0 <= i < kept.len() implies in_order(#[trigger] kept[i], last) by {
            if i < before.len() {
                assert(kept[i] == before[i]);
            }
        }
        assert forall|i: int, j: int| 0 <= i < j < kept.len() implies in_order(
            #[trigger] kept[i],
            #[trigger] kept[j],
        ) by {
            if j < before.len() {
                assert(in_order(before[i], before[j]));
            } else {
                assert(kept[i] == before[i]);
            }
        }
        law_no_repeats(apps);
        assert(kept.last() == kept[kept.len() - 1]);
    }
}

/// The offer is ordered by name without regard to case, holds every process of an application
/// with a name, and no process twice in a row.
pub proof fn law_offer_is_complete(apps: Seq<AppSource>, k: int)
    requires
        0 <= k < apps.len(),
    ensures
        capturable(apps) == without_repeats(ordered(named(apps))),
        apps[k].name@.len() > 0 ==> exists|m: int|
            0 <= m < capturable(apps).len() && (#[trigger] capturable(apps)[m]).pid == apps[k].pid,
        forall|i: int|
            0 < i < capturable(apps).len() ==> (#[trigger] capturable(apps)[i]).pid != capturable(
                apps,
            )[i - 1].pid,
        forall|i: int, j: int|
            0 <= i < j < capturable(apps).len() ==> crate::text::text_le(
                crate::text::folded((#[trigger] capturable(apps)[i]).name@),
                crate::text::folded((#[trigger] capturable(apps)[j]).name@),
            ),
{
    let has_name = |app: AppSource| app.name@.len() > 0;
    let some = named(apps);
    let sorted = ordered(some);
    law_ordering(some);
    law_no_repeats(sorted);
    lemma_kept_in_order(sorted);
    assert forall|i: int, j: int| 0 <= i < j < capturable(apps).len() implies crate::text::text_le(
        crate::text::folded((#[trigger] capturable(apps)[i]).name@),
        crate::text::folded((#[trigger] capturable(apps)[j]).name@),
    ) by {
        assert(in_order(capturable(apps)[i], capturable(apps)[j]));
    }
    if apps[k].name@.len() > 0 {
        apps.lemma_filter_contains(has_name, k);
        assert(some.contains(apps[k]));
        some.to_multiset_ensures();
        sorted.to_multiset_ensures();
        assert(sorted.to_multiset().count(apps[k]) > 0);
        assert(sorted.contains(apps[k]));
        let m = choose|m: int| 0 <= m < sorted.len() && sorted[m] == apps[k];
        lemma_process_is_kept(sorted, m);
    }
}

/// The application that is found is the first whose name holds the query; where none is found
/// none does.
pub proof fn law_first_app_is_found(
    apps: Seq<AppSource>,
    query: Seq<char>,
    found: Option<AppSource>,
)
    requires
        is_first_app(apps, query, found),
    ensures
        match found {
            Some(app) => exists|i: int|
                0 <= i < apps.len() && #[trigger] apps[i] == app && crate::device::name_holds(
                    apps[i].name@,
                    query,
                ) && forall|j: int|
                    0 <= j < i ==> !crate::device::name_holds((#[trigger] apps[j]).name@, query),
            None => forall|j: int|
                0 <= j < apps.len() ==> !crate::device::name_holds(
                    (#[trigger] apps[j]).name@,
                    query,
                ),
        },
{
    assert forall|j: int| 0 <= j < apps.len() implies app_matches(#[trigger] apps[j], query)
        == crate::device::name_holds(apps[j].name@, query) by {}
}

/// Frame `f` of two interleaved channels holds sample `f` of each, or silence where a channel
/// has ended; there are as many frames as the longer channel has samples.
pub proof fn law_pair_makes_frames(a: Seq<u32>, b: Seq<u32>, f: int)
    ensures
        a.len() >= b.len() ==> interleaved_pair(a, b).len() == 2 * a.len(),
        a.len() <= b.len() ==> interleaved_pair(a, b).len() == 2 * b.len(),
        0 <= f < a.len() || 0 <= f < b.len() ==> {
            &&& interleaved_pair(a, b)[2 * f] == (if f < a.len() {
                a[f]
            } else {
                0
            })
            &&& interleaved_pair(a, b)[2 * f + 1] == (if f < b.len() {
                b[f]
            } else {
                0
            })
        },
{
}

/// Two or more buffers of which the first has one channel are two channels to interleave; any
/// other buffers are passed on one after the other, each with its own samples.
pub proof fn law_buffers_are_offered(buffers: Seq<AudioBuffer>)
    ensures
        buffers.len() >= 2 && buffers[0].number_channels == 1 ==> offered(buffers) == seq![
            interleaved_pair(
                crate::pcm::pcm_samples(buffers[0].data@),
                crate::pcm::pcm_samples(buffers[1].data@),
            ),
        ],
        buffers.len() < 2 || buffers[0].number_channels != 1 ==> offered(buffers).len()
            == buffers.len() && forall|i: int|
            0 <= i < buffers.len() ==> offered(buffers)[i] == crate::pcm::pcm_samples(
                (#[trigger] buffers[i]).data@,
            ),
{
}

proof fn lemma_all_in_turn(
    before: SampleProducer,
    pieces: Seq<Seq<u32>>,
    counts: Seq<int>,
    after: SampleProducer,
)
    requires
        in_turn(before, pieces, counts, after),
        crate::ring::pushed(before).len() + crate::monitor::joined(pieces).len()
            <= crate::ring::producer_capacity(before) + crate::ring::seen_taken(before),
    ensures
        crate::ring::pushed(after) == crate::ring::pushed(before) + crate::monitor::joined(pieces),
        crate::ring::seen_taken(after) >= crate::ring::seen_taken(before),
        crate::ring::producer_capacity(after) == crate::ring::producer_capacity(before),
    decreases pieces.len(),
{
    if pieces.len() == 0 {
        assert(crate::ring::pushed(after) =~= crate::ring::pushed(before)
            + crate::monitor::joined(pieces));
    } else {
        let shorter = pieces.drop_last();
        let last = choose|last: SampleProducer|
            in_turn(before, shorter, counts.drop_last(), last)
                && #[trigger] crate::ring::gave(last, pieces.last(), counts.last(), after);
        lemma_all_in_turn(before, shorter, counts.drop_last(), last);
        crate::ring::law_full_before_anything_is_lost(last, pieces.last(), counts.last(), after);
        assert(pieces.last().take(pieces.last().len() as int) =~= pieces.last());
        assert(crate::ring::pushed(after) =~= crate::ring::pushed(before)
            + crate::monitor::joined(pieces));
    }
}

/// Where there is room for all of them, the samples of all pieces go in, one piece after the
/// other.
pub proof fn law_all_pieces_go_in(
    before: SampleProducer,
    pieces: Seq<Seq<u32>>,
    counts: Seq<int>,
    after: SampleProducer,
)
    requires
        fed(before, pieces, counts, after),
        crate::ring::pushed(before).len() + crate::monitor::joined(pieces).len()
            <= crate::ring::producer_capacity(before) + crate::ring::seen_taken(before),
    ensures
        crate::ring::pushed(after) == crate::ring::pushed(before) + crate::monitor::joined(pieces),
{
    lemma_all_in_turn(before, pieces, counts, after);
}

/// The answer for an application that has ended names it and its process.
pub proof fn law_ended_app_is_named(name: Seq<char>, pid: int)
    ensures
        pid >= 0 ==> not_running_message(name, pid) == "Application '"@ + name + "' (PID "@
            + crate::text::decimal(pid as nat) + ") is no longer running"@,
        pid < 0 ==> not_running_message(name, pid) == "Application '"@ + name + "' (PID "@ + seq![
            '-',
        ] + crate::text::decimal((-pid) as nat) + ") is no longer running"@,
{
    reveal_strlit("-");
    assert("-"@ =~= seq!['-']);
    if pid < 0 {
        assert(not_running_message(name, pid) =~= "Application '"@ + name + "' (PID "@ + seq!['-']
            + crate::text::decimal((-pid) as nat) + ") is no longer running"@);
    }
}

} // verus!
