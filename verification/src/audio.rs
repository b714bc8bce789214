use vstd::prelude::*;

verus! {

/// Calls `rand::random::<usize>()`, which draws a value from the thread-local
/// generator. Any `usize` can come back, so nothing is promised of it.
#[verifier::external_body]
fn random_usize() -> (r: usize) {
    rand::random::<usize>()
}

/// The soundtrack that a random draw `r` selects: the draw taken modulo the
/// number of soundtracks.
pub fn pick_soundtrack(soundtracks: &Vec<String>, r: usize) -> (s: String)
    requires
        soundtracks@.len() > 0,
    ensures
        s@ == soundtracks@[r as int % soundtracks@.len() as int]@,
{
    let i = r % soundtracks.len();
    soundtracks[i].clone()
}

/// A soundtrack chosen at random from `soundtracks`.
pub fn select_random_music(soundtracks: &Vec<String>) -> (s: String)
    requires
        soundtracks@.len() > 0,
    ensures
        exists|i: int| 0 <= i < soundtracks@.len() && s@ == #[trigger] soundtracks@[i]@,
{
    let r = random_usize();
    let s = pick_soundtrack(soundtracks, r);
    proof {
        let i = r as int % soundtracks@.len() as int;
        assert(0 <= i < soundtracks@.len());
    }
    s
}

/// What a channel plays.
#[derive(Clone, Copy, Debug, PartialEq, Eq)]
pub enum AudioType {
    Sfx,
    Music,
}

/// Where a channel is in its life.
#[derive(Clone, Copy, Debug, PartialEq, Eq)]
pub enum ChannelState {
    Playing,
    Stopping,
    Stopped,
}

/// A playing channel, known by its id; the sink and the fader that belong to
/// it are kept by the audio output under the same id.
#[derive(Clone, Copy, Debug, PartialEq, Eq)]
pub struct Channel {
    pub id: usize,
    pub audio_type: AudioType,
    pub state: ChannelState,
}

impl Channel {
    /// A music channel that starts playing.
    pub fn music(id: usize) -> (c: Self)
        ensures
            c == (Channel { id, audio_type: AudioType::Music, state: ChannelState::Playing }),
    {
        Channel { id, audio_type: AudioType::Music, state: ChannelState::Playing }
    }

    /// A sound-effect channel that starts playing.
    pub fn sfx(id: usize) -> (c: Self)
        ensures
            c == (Channel { id, audio_type: AudioType::Sfx, state: ChannelState::Playing }),
    {
        Channel { id, audio_type: AudioType::Sfx, state: ChannelState::Playing }
    }

    /// Starts fading the channel out.
    pub fn stop(&mut self)
        ensures
            *final(self) == (Channel { state: ChannelState::Stopping, ..*old(self) }),
    {
        self.state = ChannelState::Stopping;
    }

    pub fn get_state(&self) -> (s: ChannelState)
        ensures
            s == self.state,
    {
        self.state
    }

    /// Advances the channel by a tick: a channel that is fading out stops once
    /// its fader is done.
    pub fn update(&mut self, fader_finished: bool)
        ensures
            *final(self) == (Channel {
                state: next_state(old(self).state, fader_finished),
                ..*old(self)
            }),
    {
        match self.state {
            ChannelState::Playing => {},
            ChannelState::Stopping => {
                if fader_finished {
                    self.state = ChannelState::Stopped;
                }
            },
            ChannelState::Stopped => {},
        }
    }
}

/// The state after a tick: only a fading channel changes, once its fader is
/// done.
pub open spec fn next_state(s: ChannelState, fader_finished: bool) -> ChannelState {
    if s == ChannelState::Stopping && fader_finished {
        ChannelState::Stopped
    } else {
        s
    }
}

/// The channels of the audio output, in the order they were opened, and the
/// id that the next channel gets.
pub struct ChannelTable {
    channels: Vec<Channel>,
    next_channel_id: usize,
}

impl View for ChannelTable {
    type V = (Seq<Channel>, nat);

    closed spec fn view(&self) -> (Seq<Channel>, nat) {
        (self.channels@, self.next_channel_id as nat)
    }
}

/// The channels are in the order of their ids, and every id is below the next
/// one to be given out: no two channels share an id.
pub open spec fn table_wf(channels: Seq<Channel>, next_id: nat) -> bool {
    &&& forall|i: int, j: int| 0 <= i < j < channels.len() ==> #[trigger] channels[i].id < #[trigger] channels[j].id
    &&& forall|i: int| 0 <= i < channels.len() ==> #[trigger] channels[i].id < next_id
}

/// The channels that stay after a tick: each channel is advanced by a tick,
/// and those whose sink ran empty or that stopped are dropped.
pub open spec fn after_tick(channels: Seq<Channel>, fader_finished: Seq<bool>, sink_empty: Seq<bool>) -> Seq<Channel>
    decreases channels.len(),
{
    if channels.len() == 0 {
        seq![]
    } else {
        let k = (channels.len() - 1) as int;
        let prev = after_tick(channels.drop_last(), fader_finished.take(k), sink_empty.take(k));
        let c = Channel { state: next_state(channels[k].state, fader_finished[k]), ..channels[k] };
        if sink_empty[k] || c.state == ChannelState::Stopped {
            prev
        } else {
            prev.push(c)
        }
    }
}

impl ChannelTable {
    pub closed spec fn wf(&self) -> bool {
        table_wf(self.channels@, self.next_channel_id as nat)
    }

    /// The channels of a table are in the order of their ids, all below the
    /// next id: no two share an id.
    pub proof fn lemma_ids_increasing(&self)
        requires
            self.wf(),
        ensures
            table_wf(self@.0, self@.1),
    {
    }

    /// No channels; the first id is zero.
    pub fn new() -> (t: Self)
        ensures
            t.wf(),
            t@ == (Seq::<Channel>::empty(), 0nat),
    {
        ChannelTable { channels: Vec::new(), next_channel_id: 0 }
    }

    /// The channels, in the order they were opened.
    pub fn channels(&self) -> (c: &Vec<Channel>)
        ensures
            c@ == self@.0,
    {
        &self.channels
    }

    /// Gives out the next id for a sound, and opens a music channel under it
    /// when there is an audio device to play on.
    pub fn play_sound(&mut self, has_device: bool) -> (id: usize)
        requires
            old(self).wf(),
            old(self)@.1 < usize::MAX,
        ensures
            final(self).wf(),
            id == old(self)@.1,
            final(self)@.1 == old(self)@.1 + 1,
            final(self)@.0 == if has_device {
                old(self)@.0.push(Channel::music_spec(id))
            } else {
                old(self)@.0
            },
    {
        let id = self.next_channel_id;
        self.next_channel_id = self.next_channel_id + 1;
        if has_device {
            self.channels.push(Channel::music(id));
        }
        id
    }

    /// Starts fading out the first channel with id `channel_id`, if there is
    /// one; every other channel stays as it was.
    pub fn stop_channel(&mut self, channel_id: usize)
        requires
            old(self).wf(),
        ensures
            final(self).wf(),
            final(self)@.1 == old(self)@.1,
            (exists|i: int| 0 <= i < old(self)@.0.len() && #[trigger] old(self)@.0[i].id == channel_id)
                ==> exists|i: int|
                0 <= i < old(self)@.0.len() && #[trigger] old(self)@.0[i].id == channel_id
                    && (forall|j: int| 0 <= j < i ==> #[trigger] old(self)@.0[j].id != channel_id)
                    && final(self)@.0 == old(self)@.0.update(
                    i,
                    Channel { state: ChannelState::Stopping, ..old(self)@.0[i] },
                ),
            !(exists|i: int| 0 <= i < old(self)@.0.len() && #[trigger] old(self)@.0[i].id == channel_id)
                ==> final(self)@.0 == old(self)@.0,
    {
        let n = self.channels.len();
        let mut i: usize = 0;
        while i < n
            invariant
                n == self.channels@.len(),
                self.channels@ == old(self).channels@,
                self.next_channel_id == old(self).next_channel_id,
                table_wf(self.channels@, self.next_channel_id as nat),
                i <= n,
                forall|j: int| 0 <= j < i ==> #[trigger] self.channels@[j].id != channel_id,
            decreases n - i,
        {
            if self.channels[i].id == channel_id {
                let mut c = self.channels[i];
                c.stop();
                self.channels.set(i, c);
                proof {
                    assert(old(self)@.0[i as int].id == channel_id);
                    assert(forall|j: int| 0 <= j < n ==> #[trigger] self.channels@[j].id == old(self).channels@[j].id);
                }
                return;
            }
            i = i + 1;
        }
    }

    /// Advances every channel by a tick, given for each channel whether its
    /// fader is done and whether its sink ran empty, and drops the channels
    /// whose sink ran empty or that stopped.
    pub fn maintain(&mut self, fader_finished: &Vec<bool>, sink_empty: &Vec<bool>)
        requires
            old(self).wf(),
            fader_finished@.len() == old(self)@.0.len(),
            sink_empty@.len() == old(self)@.0.len(),
        ensures
            final(self).wf(),
            final(self)@.1 == old(self)@.1,
            final(self)@.0 == after_tick(old(self)@.0, fader_finished@, sink_empty@),
    {
        let n = self.channels.len();
        let mut kept: Vec<Channel> = Vec::new();
        let mut i: usize = 0;
        while i < n
            invariant
                n == self.channels@.len(),
                self.channels@ == old(self).channels@,
                self.next_channel_id == old(self).next_channel_id,
                fader_finished@.len() == n,
                sink_empty@.len() == n,
                i <= n,
                table_wf(self.channels@, self.next_channel_id as nat),
                kept@ == after_tick(
                    self.channels@.take(i as int),
                    fader_finished@.take(i as int),
                    sink_empty@.take(i as int),
                ),
                forall|j: int| 0 <= j < kept@.len() ==> exists|k: int| 0 <= k < i && #[trigger] kept@[j].id == self.channels@[k].id,
                forall|j: int, l: int| 0 <= j < l < kept@.len() ==> #[trigger] kept@[j].id < #[trigger] kept@[l].id,
                forall|j: int| 0 <= j < kept@.len() ==> #[trigger] kept@[j].id < self.next_channel_id,
                kept@.len() > 0 && i < n ==> kept@.last().id < self.channels@[i as int].id,
            decreases n - i,
        {
            let mut c = self.channels[i];
            c.update(fader_finished[i]);
            proof {
                let t = self.channels@.take(i + 1);
                assert(t.drop_last() =~= self.channels@.take(i as int));
                assert(fader_finished@.take(i + 1).take(i as int) =~= fader_finished@.take(i as int));
                assert(sink_empty@.take(i + 1).take(i as int) =~= sink_empty@.take(i as int));
            }
            if !(sink_empty[i] || matches!(c.state, ChannelState::Stopped)) {
                kept.push(c);
            }
            i = i + 1;
        }
        proof {
            assert(self.channels@.take(n as int) =~= self.channels@);
            assert(fader_finished@.take(n as int) =~= fader_finished@);
            assert(sink_empty@.take(n as int) =~= sink_empty@);
        }
        self.channels = kept;
    }
}

impl Channel {
    pub open spec fn music_spec(id: usize) -> Channel {
        Channel { id, audio_type: AudioType::Music, state: ChannelState::Playing }
    }
}

/// The id that the table gives out next belongs to no open channel.
pub proof fn lemma_next_id_is_fresh(channels: Seq<Channel>, next_id: nat)
    requires
        table_wf(channels, next_id),
    ensures
        forall|i: int| 0 <= i < channels.len() ==> #[trigger] channels[i].id != next_id,
{
}

/// After a tick no channel is stopped: a channel whose fader finishes is
/// dropped in the same tick.
pub proof fn lemma_tick_drops_stopped(
    channels: Seq<Channel>,
    fader_finished: Seq<bool>,
    sink_empty: Seq<bool>,
)
    requires
        fader_finished.len() == channels.len(),
        sink_empty.len() == channels.len(),
    ensures
        forall|i: int|
            0 <= i < after_tick(channels, fader_finished, sink_empty).len() ==> #[trigger] after_tick(
                channels,
                fader_finished,
                sink_empty,
            )[i].state != ChannelState::Stopped,
    decreases channels.len(),
{
    if channels.len() > 0 {
        let k = (channels.len() - 1) as int;
        lemma_tick_drops_stopped(channels.drop_last(), fader_finished.take(k), sink_empty.take(k));
    }
}

/// A tick keeps exactly the channels that are still alive: every channel kept
/// is one of the channels before the tick, advanced by the tick, whose sink
/// was not empty and that did not stop; every such channel is kept, in the
/// same order; and no channel whose sink ran empty is kept.
pub proof fn lemma_tick_keeps_live_channels(
    channels: Seq<Channel>,
    next_id: nat,
    fader_finished: Seq<bool>,
    sink_empty: Seq<bool>,
)
    requires
        table_wf(channels, next_id),
        fader_finished.len() == channels.len(),
        sink_empty.len() == channels.len(),
    ensures
        ({
            let kept = after_tick(channels, fader_finished, sink_empty);
            &&& forall|j: int|
                0 <= j < kept.len() ==> exists|i: int|
                    0 <= i < channels.len() && !sink_empty[i] && #[trigger] kept[j] == (Channel {
                        state: next_state(channels[i].state, fader_finished[i]),
                        ..channels[i]
                    }) && kept[j].state != ChannelState::Stopped
            &&& forall|i: int|
                0 <= i < channels.len() && !sink_empty[i] && next_state(
                    channels[i].state,
                    fader_finished[i],
                ) != ChannelState::Stopped ==> kept.contains(
                    Channel { state: next_state(channels[i].state, fader_finished[i]), ..channels[i] },
                )
            &&& forall|i: int, j: int|
                0 <= i < channels.len() && sink_empty[i] && 0 <= j < kept.len() ==> #[trigger] kept[j].id
                    != #[trigger] channels[i].id
            &&& table_wf(kept, next_id)
        }),
    decreases channels.len(),
{
    let kept = after_tick(channels, fader_finished, sink_empty);
    if channels.len() > 0 {
        let n = channels.len() - 1;
        let cs = channels.drop_last();
        let ff = fader_finished.take(n);
        let se = sink_empty.take(n);
        assert(table_wf(cs, next_id)) by {
            assert(forall|i: int| 0 <= i < cs.len() ==> cs[i] == channels[i]);
        }
        lemma_tick_keeps_live_channels(cs, next_id, ff, se);
        let prev = after_tick(cs, ff, se);
        let c = Channel { state: next_state(channels[n].state, fader_finished[n]), ..channels[n] };
        assert(forall|i: int| 0 <= i < n ==> cs[i] == channels[i] && ff[i] == fader_finished[i]
            && se[i] == sink_empty[i]);
        // every channel kept before this one has a smaller id
        assert forall|j: int| 0 <= j < prev.len() implies #[trigger] prev[j].id < channels[n].id by {
            let i = choose|i: int|
                0 <= i < cs.len() && !se[i] && #[trigger] prev[j] == (Channel {
                    state: next_state(cs[i].state, ff[i]),
                    ..cs[i]
                }) && prev[j].state != ChannelState::Stopped;
            assert(channels[i].id < channels[n].id);
        }
        if sink_empty[n] || c.state == ChannelState::Stopped {
            assert(kept == prev);
            assert forall|i: int, j: int|
                0 <= i < channels.len() && sink_empty[i] && 0 <= j < kept.len() implies #[trigger] kept[j].id
                != #[trigger] channels[i].id by {
                if i == n {
                    assert(prev[j].id < channels[n].id);
                }
            }
        } else {
            assert(kept == prev.push(c));
            assert forall|j: int| 0 <= j < kept.len() implies exists|i: int|
                0 <= i < channels.len() && !sink_empty[i] && #[trigger] kept[j] == (Channel {
                    state: next_state(channels[i].state, fader_finished[i]),
                    ..channels[i]
                }) && kept[j].state != ChannelState::Stopped by {
                if j == prev.len() {
                    assert(kept[j] == c);
                } else {
                    assert(kept[j] == prev[j]);
                    let i = choose|i: int|
                        0 <= i < cs.len() && !se[i] && #[trigger] prev[j] == (Channel {
                            state: next_state(cs[i].state, ff[i]),
                            ..cs[i]
                        }) && prev[j].state != ChannelState::Stopped;
                    assert(channels[i] == cs[i]);
                }
            }
            assert forall|i: int|
                0 <= i < channels.len() && !sink_empty[i] && next_state(
                    channels[i].state,
                    fader_finished[i],
                ) != ChannelState::Stopped implies kept.contains(
                Channel { state: next_state(channels[i].state, fader_finished[i]), ..channels[i] },
            ) by {
                if i == n {
                    assert(kept[prev.len() as int] == c);
                } else {
                    let ci = Channel { state: next_state(cs[i].state, ff[i]), ..cs[i] };
                    assert(prev.contains(ci));
                    let j = choose|j: int| 0 <= j < prev.len() && prev[j] == ci;
                    assert(kept[j] == ci);
                }
            }
            assert forall|i: int, j: int|
                0 <= i < channels.len() && sink_empty[i] && 0 <= j < kept.len() implies #[trigger] kept[j].id
                != #[trigger] channels[i].id by {
                if j == prev.len() {
                    assert(kept[j] == c);
                    assert(i != n);
                    assert(channels[i].id < channels[n].id);
                } else {
                    assert(kept[j] == prev[j]);
                    if i == n {
                        assert(prev[j].id < channels[n].id);
                    }
                }
            }
            assert forall|a: int, b: int| 0 <= a < b < kept.len() implies #[trigger] kept[a].id
                < #[trigger] kept[b].id by {
                if b == prev.len() {
                    assert(kept[a] == prev[a]);
                } else {
                    assert(kept[a] == prev[a] && kept[b] == prev[b]);
                }
            }
            assert forall|a: int| 0 <= a < kept.len() implies #[trigger] kept[a].id < next_id by {
                if a < prev.len() {
                    assert(kept[a] == prev[a]);
                }
            }
        }
    }
}

} // verus!
