//! The media pipeline that all sessions share: which tracks and channels it feeds, what it counts, and
//! whether its programs run.

use std::collections::HashMap;

use vstd::prelude::*;
use vstd::std_specs::hash::spec_keys_iter;
use vstd::std_specs::iter::IteratorSpec;
use webrtc::rtp::packet::Packet;

use crate::rtp::{
    frame_message, frame_meta, items_fit, marked, read_rtp, rtp_packet, whole_packet,
    without_extension,
};
use crate::ordering::{is_selection, lemma_filter_selects};
use crate::text::{joined, same_text};

verus! {

broadcast use vstd::std_specs::hash::group_hash_axioms;

/// What a stream carries.
#[derive(Clone, Copy, Debug, PartialEq, Eq, Structural)]
pub enum Media {
    Video,
    Audio,
}

/// What the pipeline feeds, for each session: tracks `T` and data channels `D`; and what it counts.
pub struct MediaRegistry<T, D> {
    pub video_tracks: Vec<(u64, T)>,
    pub audio_tracks: Vec<(u64, T)>,
    /// No two of them have one session and one label.
    pub metadata_channels: Vec<(u64, String, D)>,
    pub video_packets_written: HashMap<u64, u64>,
    pub audio_packets_written: HashMap<u64, u64>,
    pub video_packets_in: u64,
    pub audio_packets_in: u64,
    pub video_frame_seq: u64,
}

/// What a [`MediaRegistry`] holds.
#[verifier::reject_recursive_types(T)]
#[verifier::reject_recursive_types(D)]
#[verifier::ext_equal]
pub struct MediaRegistryView<T, D> {
    pub video_tracks: Seq<(u64, T)>,
    pub audio_tracks: Seq<(u64, T)>,
    pub metadata_channels: Seq<(u64, Seq<char>, D)>,
    pub video_packets_written: Map<u64, u64>,
    pub audio_packets_written: Map<u64, u64>,
    pub video_packets_in: u64,
    pub audio_packets_in: u64,
    pub video_frame_seq: u64,
}

/// The views of channels.
pub open spec fn channel_views<D>(s: Seq<(u64, String, D)>) -> Seq<(u64, Seq<char>, D)> {
    s.map_values(|c: (u64, String, D)| (c.0, c.1@, c.2))
}

impl<T, D> View for MediaRegistry<T, D> {
    type V = MediaRegistryView<T, D>;

    open spec fn view(&self) -> MediaRegistryView<T, D> {
        MediaRegistryView {
            video_tracks: self.video_tracks@,
            audio_tracks: self.audio_tracks@,
            metadata_channels: channel_views(self.metadata_channels@),
            video_packets_written: self.video_packets_written@,
            audio_packets_written: self.audio_packets_written@,
            video_packets_in: self.video_packets_in,
            audio_packets_in: self.audio_packets_in,
            video_frame_seq: self.video_frame_seq,
        }
    }
}

/// The track belongs to another session.
pub open spec fn other_session<T>(t: (u64, T), session: u64) -> bool {
    t.0 != session
}

/// The tracks without those of a session.
pub open spec fn without_session<T>(tracks: Seq<(u64, T)>, session: u64) -> Seq<(u64, T)> {
    tracks.filter(|t: (u64, T)| other_session(t, session))
}

/// The channel belongs to another session.
pub open spec fn channel_of_other<D>(c: (u64, Seq<char>, D), session: u64) -> bool {
    c.0 != session
}

/// The channel has another session or another label.
pub open spec fn other_channel<D>(
    c: (u64, Seq<char>, D),
    session: u64,
    label: Seq<char>,
) -> bool {
    !(c.0 == session && c.1 == label)
}

/// The channels without those of a session.
pub open spec fn channels_without_session<D>(
    channels: Seq<(u64, Seq<char>, D)>,
    session: u64,
) -> Seq<(u64, Seq<char>, D)> {
    channels.filter(|c: (u64, Seq<char>, D)| channel_of_other(c, session))
}

/// The channels without the one of a session and a label.
pub open spec fn without_channel<D>(
    channels: Seq<(u64, Seq<char>, D)>,
    session: u64,
    label: Seq<char>,
) -> Seq<(u64, Seq<char>, D)> {
    channels.filter(|c: (u64, Seq<char>, D)| other_channel(c, session, label))
}

/// One of some channels has the session and the label.
pub open spec fn names_channel(stale: Seq<(u64, Seq<char>)>, session: u64, label: Seq<char>) -> bool {
    stale.contains((session, label))
}

/// The channel is not one of those that are named.
pub open spec fn unnamed_channel<D>(
    c: (u64, Seq<char>, D),
    stale: Seq<(u64, Seq<char>)>,
) -> bool {
    !names_channel(stale, c.0, c.1)
}

/// The channels without the ones that are named.
pub open spec fn without_channels<D>(
    channels: Seq<(u64, Seq<char>, D)>,
    stale: Seq<(u64, Seq<char>)>,
) -> Seq<(u64, Seq<char>, D)> {
    channels.filter(|c: (u64, Seq<char>, D)| unnamed_channel(c, stale))
}

/// The views of names of channels.
pub open spec fn label_views(s: Seq<(u64, String)>) -> Seq<(u64, Seq<char>)> {
    s.map_values(|c: (u64, String)| (c.0, c.1@))
}

/// One of the tracks is of the session.
pub open spec fn track_session<T>(tracks: Seq<(u64, T)>, s: u64) -> bool {
    exists|i: int| 0 <= i < tracks.len() && (#[trigger] tracks[i]).0 == s
}

/// One of the channels is of the session.
pub open spec fn channel_session<D>(channels: Seq<(u64, Seq<char>, D)>, s: u64) -> bool {
    exists|i: int| 0 <= i < channels.len() && (#[trigger] channels[i]).0 == s
}

/// What has been counted for a session.
pub open spec fn counted(counts: Map<u64, u64>, session: u64) -> u64 {
    if counts.contains_key(session) {
        counts[session]
    } else {
        0
    }
}

/// The counts when one packet more has been written to each of some sessions.
pub open spec fn counted_up(counts: Map<u64, u64>, sessions: Seq<u64>) -> Map<u64, u64>
    decreases sessions.len(),
{
    if sessions.len() == 0 {
        counts
    } else {
        let before = counted_up(counts, sessions.drop_last());
        before.insert(sessions.last(), (counted(before, sessions.last()) + 1) as u64)
    }
}

/// No two channels have one session and one label.
pub open spec fn channels_differ<D>(channels: Seq<(u64, Seq<char>, D)>) -> bool {
    forall|i: int, j: int|
        0 <= i < j < channels.len() ==> (#[trigger] channels[i]).0 != (#[trigger] channels[j]).0
            || channels[i].1 != channels[j].1
}

impl<T, D> MediaRegistryView<T, D> {
    /// No two channels have one session and one label.
    pub open spec fn wf(self) -> bool {
        channels_differ(self.metadata_channels)
    }

    /// How many packets have been written to each session.
    pub open spec fn written(self, media: Media) -> Map<u64, u64> {
        match media {
            Media::Video => self.video_packets_written,
            Media::Audio => self.audio_packets_written,
        }
    }

    /// The registry when the tracks of a session have been registered.
    pub open spec fn with_tracks(self, session: u64, video: T, audio: T) -> MediaRegistryView<T, D> {
        MediaRegistryView {
            video_tracks: self.video_tracks.push((session, video)),
            audio_tracks: self.audio_tracks.push((session, audio)),
            ..self
        }
    }

    /// The registry when a session is gone.
    pub open spec fn without(self, session: u64) -> MediaRegistryView<T, D> {
        MediaRegistryView {
            video_tracks: without_session(self.video_tracks, session),
            audio_tracks: without_session(self.audio_tracks, session),
            metadata_channels: channels_without_session(self.metadata_channels, session),
            video_packets_written: self.video_packets_written.remove(session),
            audio_packets_written: self.audio_packets_written.remove(session),
            ..self
        }
    }

    /// The registry when a channel has been registered, in place of the one of the same session and
    /// label.
    pub open spec fn with_channel(self, session: u64, label: Seq<char>, channel: D) -> MediaRegistryView<
        T,
        D,
    > {
        MediaRegistryView {
            metadata_channels: without_channel(self.metadata_channels, session, label).push(
                (session, label, channel),
            ),
            ..self
        }
    }

    /// The registry when a packet has come in.
    pub open spec fn with_packet(self, media: Media) -> MediaRegistryView<T, D> {
        match media {
            Media::Video => MediaRegistryView {
                video_packets_in: one_more(self.video_packets_in),
                ..self
            },
            Media::Audio => MediaRegistryView {
                audio_packets_in: one_more(self.audio_packets_in),
                ..self
            },
        }
    }

    /// Something in the registry belongs to the session.
    pub open spec fn knows(self, session: u64) -> bool {
        ||| track_session(self.video_tracks, session)
        ||| track_session(self.audio_tracks, session)
        ||| channel_session(self.metadata_channels, session)
        ||| self.video_packets_written.contains_key(session)
        ||| self.audio_packets_written.contains_key(session)
    }
}

/// A filter that removes channels leaves the others apart.
proof fn lemma_filtered_apart<D>(
    channels: Seq<(u64, Seq<char>, D)>,
    keep: spec_fn((u64, Seq<char>, D)) -> bool,
)
    requires
        channels_differ(channels),
    ensures
        channels_differ(channels.filter(keep)),
    decreases channels.len(),
{
    let kept = channels.filter(keep);
    if channels.len() == 0 {
        channels.lemma_filter_len(keep);
    } else {
        let front = channels.drop_last();
        let last = channels.last();
        assert(channels =~= front.push(last));
        front.lemma_filter_push(last, keep);
        lemma_filtered_apart(front, keep);
        let f = front.filter(keep);
        assert forall|i: int, j: int| 0 <= i < j < kept.len() implies (#[trigger] kept[i]).0 != (
        #[trigger] kept[j]).0 || kept[i].1 != kept[j].1 by {
            if j < f.len() {
                assert(kept[i] == f[i] && kept[j] == f[j]);
            } else {
                assert(kept[i] == f[i] && kept[j] == last);
                assert(f.contains(f[i]));
                front.lemma_filter_contains_rev(keep, f[i]);
                let k = choose|k: int| 0 <= k < front.len() && front[k] == f[i];
                assert(channels[k] == front[k]);
                assert(channels[channels.len() - 1] == last);
            }
        }
    }
}

/// Keeps the tracks of other sessions.
fn retain_tracks<T>(tracks: &mut Vec<(u64, T)>, session: u64)
    ensures
        final(tracks)@ == without_session(old(tracks)@, session),
{
    let mut all: Vec<(u64, T)> = Vec::new();
    std::mem::swap(&mut all, tracks);
    let ghost found = all@;
    let ghost keep = |t: (u64, T)| other_session(t, session);
    let mut kept: Vec<(u64, T)> = Vec::new();
    assert(found.take(0).filter(keep) =~= Seq::<(u64, T)>::empty());
    for t in it: all
        invariant
            it.seq() == found,
            keep == (|t: (u64, T)| other_session(t, session)),
            kept@ == found.take(it.index()).filter(keep),
    {
        proof {
            let k = it.index();
            assert(found.take(k + 1) =~= found.take(k).push(t));
            found.take(k).lemma_filter_push(t, keep);
        }
        if t.0 != session {
            kept.push(t);
        }
    }
    assert(found.take(found.len() as int) =~= found);
    *tracks = kept;
}

/// Which channels to keep.
enum Keep<'a> {
    /// Those of other sessions.
    OtherSessions(u64),
    /// All but those of a session and a label.
    OtherLabels(u64, &'a str),
    /// All but the ones that are named.
    Unnamed(&'a Vec<(u64, String)>),
}

spec fn kept_channel<D>(keep: Keep, c: (u64, Seq<char>, D)) -> bool {
    match keep {
        Keep::OtherSessions(session) => c.0 != session,
        Keep::OtherLabels(session, label) => !(c.0 == session && c.1 == label@),
        Keep::Unnamed(stale) => !names_channel(label_views(stale@), c.0, c.1),
    }
}

/// Whether one of some channels has the session and the label.
fn is_named(stale: &Vec<(u64, String)>, session: u64, label: &str) -> (res: bool)
    ensures
        res == names_channel(label_views(stale@), session, label@),
{
    let ghost views = label_views(stale@);
    for i in 0..stale.len()
        invariant
            views == label_views(stale@),
            forall|j: int| 0 <= j < i ==> #[trigger] views[j] != (session, label@),
    {
        assert(views[i as int] == (stale@[i as int].0, stale@[i as int].1@));
        if stale[i].0 == session && same_text(stale[i].1.as_str(), label) {
            return true;
        }
    }
    false
}

fn keeps(keep: &Keep, session: u64, label: &str) -> (res: bool)
    ensures
        res == kept_channel(*keep, (session, label@, ())),
{
    match keep {
        Keep::OtherSessions(s) => session != *s,
        Keep::OtherLabels(s, l) => !(session == *s && same_text(label, l)),
        Keep::Unnamed(stale) => !is_named(stale, session, label),
    }
}

/// Keeps some channels.
fn retain_channels<D>(channels: &mut Vec<(u64, String, D)>, keep: Keep)
    ensures
        channel_views(final(channels)@) == channel_views(old(channels)@).filter(
            |c: (u64, Seq<char>, D)| kept_channel(keep, c),
        ),
{
    let mut all: Vec<(u64, String, D)> = Vec::new();
    std::mem::swap(&mut all, channels);
    let ghost found = all@;
    let ghost views = channel_views(found);
    let ghost k = |c: (u64, Seq<char>, D)| kept_channel(keep, c);
    let mut kept: Vec<(u64, String, D)> = Vec::new();
    assert(views.take(0).filter(k) =~= Seq::<(u64, Seq<char>, D)>::empty());
    assert(channel_views(kept@) =~= Seq::<(u64, Seq<char>, D)>::empty());
    for c in it: all
        invariant
            it.seq() == found,
            views == channel_views(found),
            k == (|c: (u64, Seq<char>, D)| kept_channel(keep, c)),
            channel_views(kept@) == views.take(it.index()).filter(k),
    {
        let ghost i = it.index();
        let ghost before = kept@;
        proof {
            assert(views[i] == (c.0, c.1@, c.2));
            assert(views.take(i + 1) =~= views.take(i).push(views[i]));
            views.take(i).lemma_filter_push(views[i], k);
        }
        if keeps(&keep, c.0, c.1.as_str()) {
            kept.push(c);
            assert(channel_views(kept@) =~= channel_views(before).push(views[i]));
        }
    }
    assert(views.take(views.len() as int) =~= views);
    *channels = kept;
}

impl<T, D> MediaRegistry<T, D> {
    /// No two channels have one session and one label.
    pub open spec fn wf(&self) -> bool {
        self@.wf()
    }

    /// A registry that feeds nothing.
    pub fn new() -> (res: MediaRegistry<T, D>)
        ensures
            res.wf(),
            res@ == (MediaRegistryView::<T, D> {
                video_tracks: Seq::empty(),
                audio_tracks: Seq::empty(),
                metadata_channels: Seq::empty(),
                video_packets_written: Map::empty(),
                audio_packets_written: Map::empty(),
                video_packets_in: 0,
                audio_packets_in: 0,
                video_frame_seq: 0,
            }),
    {
        let res = MediaRegistry {
            video_tracks: Vec::new(),
            audio_tracks: Vec::new(),
            metadata_channels: Vec::new(),
            video_packets_written: HashMap::new(),
            audio_packets_written: HashMap::new(),
            video_packets_in: 0,
            audio_packets_in: 0,
            video_frame_seq: 0,
        };
        assert(res@.metadata_channels =~= Seq::<(u64, Seq<char>, D)>::empty());
        res
    }

    /// Registers the tracks of a session.
    pub fn register_tracks(&mut self, session_id: u64, video_track: T, audio_track: T)
        requires
            old(self).wf(),
        ensures
            final(self).wf(),
            final(self)@ == old(self)@.with_tracks(session_id, video_track, audio_track),
    {
        self.video_tracks.push((session_id, video_track));
        self.audio_tracks.push((session_id, audio_track));
    }

    /// Removes everything of a session.
    pub fn unregister_tracks(&mut self, session_id: u64)
        requires
            old(self).wf(),
        ensures
            final(self).wf(),
            final(self)@ == old(self)@.without(session_id),
    {
        let ghost before = self@.metadata_channels;
        retain_tracks(&mut self.video_tracks, session_id);
        retain_tracks(&mut self.audio_tracks, session_id);
        self.video_packets_written.remove(&session_id);
        self.audio_packets_written.remove(&session_id);
        retain_channels(&mut self.metadata_channels, Keep::OtherSessions(session_id));
        proof {
            let k = |c: (u64, Seq<char>, D)| channel_of_other(c, session_id);
            assert(k =~= (|c: (u64, Seq<char>, D)| kept_channel(Keep::OtherSessions(session_id), c)));
            lemma_filtered_apart(before, k);
        }
    }

    /// Registers a data channel, in place of the one of the same session and label.
    pub fn register_metadata_channel(&mut self, session_id: u64, label: String, channel: D)
        requires
            old(self).wf(),
        ensures
            final(self).wf(),
            final(self)@ == old(self)@.with_channel(session_id, label@, channel),
    {
        let ghost before = self@.metadata_channels;
        let ghost l = label@;
        let text: &str = label.as_str();
        retain_channels(&mut self.metadata_channels, Keep::OtherLabels(session_id, text));
        let ghost between = self@.metadata_channels;
        proof {
            lemma_without_channel(before, session_id, text);
        }
        self.metadata_channels.push((session_id, label, channel));
        assert(self@.metadata_channels =~= between.push((session_id, l, channel)));
    }

    /// Removes a data channel.
    pub fn unregister_metadata_channel(&mut self, session_id: u64, label: &str)
        requires
            old(self).wf(),
        ensures
            final(self).wf(),
            final(self)@ == (MediaRegistryView {
                metadata_channels: without_channel(
                    old(self)@.metadata_channels,
                    session_id,
                    label@,
                ),
                ..old(self)@
            }),
    {
        let ghost before = self@.metadata_channels;
        retain_channels(&mut self.metadata_channels, Keep::OtherLabels(session_id, label));
        proof {
            lemma_without_channel(before, session_id, label);
        }
    }

    /// Removes the data channels over which nothing could be sent.
    pub fn prune_channels(&mut self, stale: &Vec<(u64, String)>)
        requires
            old(self).wf(),
        ensures
            final(self).wf(),
            final(self)@ == (MediaRegistryView {
                metadata_channels: without_channels(
                    old(self)@.metadata_channels,
                    label_views(stale@),
                ),
                ..old(self)@
            }),
    {
        let ghost before = self@.metadata_channels;
        retain_channels(&mut self.metadata_channels, Keep::Unnamed(stale));
        proof {
            let names = label_views(stale@);
            let k = |c: (u64, Seq<char>, D)| unnamed_channel(c, names);
            assert(k =~= (|c: (u64, Seq<char>, D)| kept_channel(Keep::Unnamed(stale), c)));
            lemma_filtered_apart(before, k);
        }
    }

    /// Counts a packet that came in. The count begins again at zero when it is exhausted.
    fn count_packet(&mut self, media: Media)
        requires
            old(self).wf(),
        ensures
            final(self).wf(),
            final(self)@ == old(self)@.with_packet(media),
    {
        match media {
            Media::Video => {
                self.video_packets_in = count_on(self.video_packets_in);
            },
            Media::Audio => {
                self.audio_packets_in = count_on(self.audio_packets_in);
            },
        }
    }

    /// Takes in what came from an encoder. A packet is counted, and given back with whether it ends a
    /// video frame; anything else is dropped.
    pub fn receive_packet(&mut self, media: Media, data: &[u8]) -> (res: Option<(Packet, bool)>)
        requires
            old(self).wf(),
            items_fit(data@),
        ensures
            final(self).wf(),
            match res {
                Some(read) => {
                    &&& rtp_packet(data@) == Some(read.0)
                    &&& final(self)@ == old(self)@.with_packet(media)
                    &&& read.1 == (media == Media::Video && marked(data@))
                },
                None => rtp_packet(data@) is None && final(self)@ == old(self)@,
            },
            without_extension(data@) ==> (res is Some <==> whole_packet(data@)),
    {
        match read_rtp(data) {
            Some((packet, marker)) => {
                self.count_packet(media);
                let ends_frame: bool = match media {
                    Media::Video => marker,
                    Media::Audio => false,
                };
                Some((packet, ends_frame))
            },
            None => None,
        }
    }

    /// Counts a packet that was written to each of some sessions.
    pub fn record_writes(&mut self, media: Media, sessions: &Vec<u64>)
        requires
            old(self).wf(),
            forall|s: u64| #[trigger]
                counted(old(self)@.written(media), s) + sessions@.len() <= u64::MAX,
        ensures
            final(self).wf(),
            final(self)@ == (match media {
                Media::Video => MediaRegistryView {
                    video_packets_written: counted_up(
                        old(self)@.video_packets_written,
                        sessions@,
                    ),
                    ..old(self)@
                },
                Media::Audio => MediaRegistryView {
                    audio_packets_written: counted_up(
                        old(self)@.audio_packets_written,
                        sessions@,
                    ),
                    ..old(self)@
                },
            }),
    {
        let ghost start = self@.written(media);
        assert forall|s: u64| #[trigger] counted(start, s) + sessions@.len() <= u64::MAX by {
            assert(start == old(self)@.written(media));
        }
        match media {
            Media::Video => {
                count_up(&mut self.video_packets_written, sessions);
            },
            Media::Audio => {
                count_up(&mut self.audio_packets_written, sessions);
            },
        }
    }

    /// Counts a video frame; gives the message that goes with it.
    pub fn next_frame(&mut self) -> (res: String)
        requires
            old(self).wf(),
            old(self)@.video_frame_seq < u64::MAX,
        ensures
            final(self).wf(),
            final(self)@ == (MediaRegistryView {
                video_frame_seq: (old(self)@.video_frame_seq + 1) as u64,
                ..old(self)@
            }),
            res@ == frame_message(old(self)@.video_frame_seq + 1),
    {
        self.video_frame_seq = self.video_frame_seq + 1;
        frame_meta(self.video_frame_seq)
    }
}

/// A count, one further; behind the last one comes zero.
pub open spec fn one_more(count: u64) -> u64 {
    if count == u64::MAX {
        0
    } else {
        (count + 1) as u64
    }
}

fn count_on(count: u64) -> (res: u64)
    ensures
        res == one_more(count),
{
    if count == u64::MAX {
        0
    } else {
        count + 1
    }
}

/// Counts no more than there are packets.
proof fn lemma_counted_up(counts: Map<u64, u64>, sessions: Seq<u64>, s: u64)
    requires
        forall|s: u64| #[trigger] counted(counts, s) + sessions.len() <= u64::MAX,
    ensures
        counted(counted_up(counts, sessions), s) <= counted(counts, s) + sessions.len(),
    decreases sessions.len(),
{
    if sessions.len() > 0 {
        let front = sessions.drop_last();
        assert forall|s: u64| #[trigger] counted(counts, s) + front.len() <= u64::MAX by {}
        lemma_counted_up(counts, front, s);
        lemma_counted_up(counts, front, sessions.last());
        assert(counted(counts, sessions.last()) + sessions.len() <= u64::MAX);
    }
}

fn count_up(counts: &mut HashMap<u64, u64>, sessions: &Vec<u64>)
    requires
        forall|s: u64| #[trigger] counted(old(counts)@, s) + sessions@.len() <= u64::MAX,
    ensures
        final(counts)@ == counted_up(old(counts)@, sessions@),
{
    let ghost start = counts@;
    assert(sessions@.take(0) =~= Seq::<u64>::empty());
    for i in 0..sessions.len()
        invariant
            counts@ == counted_up(start, sessions@.take(i as int)),
            forall|s: u64| #[trigger] counted(start, s) + sessions@.len() <= u64::MAX,
    {
        let s: u64 = sessions[i];
        proof {
            let front = sessions@.take(i as int);
            assert(sessions@.take(i + 1).drop_last() =~= front);
            assert forall|s: u64| #[trigger] counted(start, s) + front.len() <= u64::MAX by {}
            lemma_counted_up(start, front, s);
            assert(counted(start, s) + sessions@.len() <= u64::MAX);
        }
        let before: u64 = match counts.get(&s) {
            Some(n) => *n,
            None => 0,
        };
        counts.insert(s, before + 1);
    }
    assert(sessions@.take(sessions@.len() as int) =~= sessions@);
}

proof fn lemma_without_channel<D>(channels: Seq<(u64, Seq<char>, D)>, session: u64, label: &str)
    requires
        channels_differ(channels),
    ensures
        without_channel(channels, session, label@) == channels.filter(
            |c: (u64, Seq<char>, D)| kept_channel(Keep::OtherLabels(session, label), c),
        ),
        channels_differ(without_channel(channels, session, label@)),
        forall|i: int|
            0 <= i < without_channel(channels, session, label@).len() ==> {
                let c = #[trigger] without_channel(channels, session, label@)[i];
                !(c.0 == session && c.1 == label@)
            },
{
    let l = label@;
    let k = |c: (u64, Seq<char>, D)| other_channel(c, session, l);
    let kept = without_channel(channels, session, l);
    assert(kept == channels.filter(k));
    assert(k =~= (|c: (u64, Seq<char>, D)| kept_channel(Keep::OtherLabels(session, label), c)));
    lemma_filtered_apart(channels, k);
    assert forall|i: int| 0 <= i < kept.len() implies !((#[trigger] kept[i]).0 == session && kept[i].1
        == l) by {
        channels.lemma_filter_pred(k, i);
    }
}

/// What the pipeline does for a session.
#[derive(Clone, Copy, Debug, PartialEq, Eq, Structural)]
pub struct SessionRow {
    pub session_id: u64,
    pub active_webrtc_session: bool,
    pub video_tracks: usize,
    pub audio_tracks: usize,
    pub metadata_channels: usize,
    pub video_packets_written: u64,
    pub audio_packets_written: u64,
}

/// How many tracks a session has.
pub open spec fn tracks_of<T>(tracks: Seq<(u64, T)>, session: u64) -> nat {
    tracks.filter(|t: (u64, T)| !other_session(t, session)).len()
}

/// How many channels a session has.
pub open spec fn channels_of<D>(channels: Seq<(u64, Seq<char>, D)>, session: u64) -> nat {
    channels.filter(|c: (u64, Seq<char>, D)| !channel_of_other(c, session)).len()
}

/// What the pipeline does for a session.
pub open spec fn row_of<T, D>(r: MediaRegistryView<T, D>, active: Seq<u64>, session: u64) -> SessionRow {
    SessionRow {
        session_id: session,
        active_webrtc_session: active.contains(session),
        video_tracks: tracks_of(r.video_tracks, session) as usize,
        audio_tracks: tracks_of(r.audio_tracks, session) as usize,
        metadata_channels: channels_of(r.metadata_channels, session) as usize,
        video_packets_written: counted(r.video_packets_written, session),
        audio_packets_written: counted(r.audio_packets_written, session),
    }
}

/// The session is active, or the registry knows it.
pub open spec fn to_show<T, D>(r: MediaRegistryView<T, D>, active: Seq<u64>, s: u64) -> bool {
    active.contains(s) || r.knows(s)
}

/// The rows show each session once that is active or that the registry knows, in the order of their
/// numbers.
pub open spec fn shows_sessions<T, D>(
    r: MediaRegistryView<T, D>,
    active: Seq<u64>,
    rows: Seq<SessionRow>,
) -> bool {
    &&& forall|i: int, j: int|
        0 <= i < j < rows.len() ==> (#[trigger] rows[i]).session_id < (#[trigger] rows[j]).session_id
    &&& forall|i: int|
        0 <= i < rows.len() ==> {
            let s = (#[trigger] rows[i]).session_id;
            to_show(r, active, s) && rows[i] == row_of(r, active, s)
        }
    &&& forall|s: u64| #[trigger]
        to_show(r, active, s) ==> exists|i: int|
            0 <= i < rows.len() && (#[trigger] rows[i]).session_id == s
}

fn count_tracks<T>(tracks: &Vec<(u64, T)>, session: u64) -> (res: usize)
    ensures
        res == tracks_of(tracks@, session),
{
    let ghost mine = |t: (u64, T)| !other_session(t, session);
    let mut count: usize = 0;
    assert(tracks@.take(0).filter(mine) =~= Seq::<(u64, T)>::empty());
    for i in 0..tracks.len()
        invariant
            mine == (|t: (u64, T)| !other_session(t, session)),
            count <= i,
            count == tracks@.take(i as int).filter(mine).len(),
    {
        proof {
            assert(tracks@.take(i + 1) =~= tracks@.take(i as int).push(tracks@[i as int]));
            tracks@.take(i as int).lemma_filter_push(tracks@[i as int], mine);
        }
        if tracks[i].0 == session {
            count = count + 1;
        }
    }
    assert(tracks@.take(tracks@.len() as int) =~= tracks@);
    count
}

fn count_channels<D>(channels: &Vec<(u64, String, D)>, session: u64) -> (res: usize)
    ensures
        res == channels_of(channel_views(channels@), session),
{
    let ghost views = channel_views(channels@);
    let ghost mine = |c: (u64, Seq<char>, D)| !channel_of_other(c, session);
    let mut count: usize = 0;
    assert(views.take(0).filter(mine) =~= Seq::<(u64, Seq<char>, D)>::empty());
    for i in 0..channels.len()
        invariant
            views == channel_views(channels@),
            mine == (|c: (u64, Seq<char>, D)| !channel_of_other(c, session)),
            count <= i,
            count == views.take(i as int).filter(mine).len(),
    {
        proof {
            let c = channels@[i as int];
            assert(views[i as int] == (c.0, c.1@, c.2));
            assert(views.take(i + 1) =~= views.take(i as int).push(views[i as int]));
            views.take(i as int).lemma_filter_push(views[i as int], mine);
        }
        if channels[i].0 == session {
            count = count + 1;
        }
    }
    assert(views.take(views.len() as int) =~= views);
    count
}

fn is_in(ids: &Vec<u64>, id: u64) -> (res: bool)
    ensures
        res == ids@.contains(id),
{
    for i in 0..ids.len()
        invariant
            forall|j: int| 0 <= j < i ==> #[trigger] ids@[j] != id,
    {
        if ids[i] == id {
            return true;
        }
    }
    false
}

fn count_of(counts: &HashMap<u64, u64>, session: u64) -> (res: u64)
    ensures
        res == counted(counts@, session),
{
    match counts.get(&session) {
        Some(n) => *n,
        None => 0,
    }
}

/// The numbers are in order, each once.
spec fn in_order(ids: Seq<u64>) -> bool {
    forall|i: int, j: int| 0 <= i < j < ids.len() ==> #[trigger] ids[i] < #[trigger] ids[j]
}

/// Puts a number in its place, where it is not there yet.
fn insert_sorted(ids: &mut Vec<u64>, id: u64)
    requires
        in_order(old(ids)@),
    ensures
        in_order(final(ids)@),
        forall|s: u64| #[trigger] final(ids)@.contains(s) <==> old(ids)@.contains(s) || s == id,
{
    let ghost before = ids@;
    let mut at: usize = 0;
    while at < ids.len() && ids[at] < id
        invariant
            ids@ == before,
            at <= ids@.len(),
            forall|i: int| 0 <= i < at ==> #[trigger] ids@[i] < id,
        decreases ids@.len() - at,
    {
        at = at + 1;
    }
    if at < ids.len() && ids[at] == id {
        assert(ids@.contains(id));
        return;
    }
    ids.insert(at, id);
    proof {
        let after = ids@;
        assert(after =~= before.insert(at as int, id));
        assert forall|i: int, j: int| 0 <= i < j < after.len() implies #[trigger] after[i]
            < #[trigger] after[j] by {
            if at < before.len() && j > at {
                assert(before[at as int] <= before[j - 1]);
            }
        }
        assert forall|s: u64| #[trigger] after.contains(s) <==> before.contains(s) || s == id by {
            if after.contains(s) {
                let i = choose|i: int| 0 <= i < after.len() && after[i] == s;
                if i < at {
                    assert(before[i] == s);
                } else if i > at {
                    assert(before[i - 1] == s);
                }
            }
            if before.contains(s) {
                let i = choose|i: int| 0 <= i < before.len() && before[i] == s;
                if i < at {
                    assert(after[i] == s);
                } else {
                    assert(after[i + 1] == s);
                }
            }
            assert(after[at as int] == id);
        }
    }
}

fn collect_sessions<T>(ids: &mut Vec<u64>, tracks: &Vec<(u64, T)>)
    requires
        in_order(old(ids)@),
    ensures
        in_order(final(ids)@),
        forall|s: u64| #[trigger]
            final(ids)@.contains(s) <==> old(ids)@.contains(s) || track_session(tracks@, s),
{
    let ghost start = ids@;
    for i in 0..tracks.len()
        invariant
            in_order(ids@),
            forall|s: u64| #[trigger]
                ids@.contains(s) <==> start.contains(s) || exists|j: int|
                    0 <= j < i && (#[trigger] tracks@[j]).0 == s,
    {
        insert_sorted(ids, tracks[i].0);
    }
}

fn collect_channel_sessions<D>(ids: &mut Vec<u64>, channels: &Vec<(u64, String, D)>)
    requires
        in_order(old(ids)@),
    ensures
        in_order(final(ids)@),
        forall|s: u64| #[trigger]
            final(ids)@.contains(s) <==> old(ids)@.contains(s) || channel_session(
                channel_views(channels@),
                s,
            ),
{
    let ghost start = ids@;
    let ghost views = channel_views(channels@);
    for i in 0..channels.len()
        invariant
            in_order(ids@),
            views == channel_views(channels@),
            forall|s: u64| #[trigger]
                ids@.contains(s) <==> start.contains(s) || exists|j: int|
                    0 <= j < i && (#[trigger] views[j]).0 == s,
    {
        assert(views[i as int].0 == channels@[i as int].0);
        insert_sorted(ids, channels[i].0);
    }
}

fn collect_keys(ids: &mut Vec<u64>, counts: &HashMap<u64, u64>)
    requires
        in_order(old(ids)@),
    ensures
        in_order(final(ids)@),
        forall|s: u64| #[trigger]
            final(ids)@.contains(s) <==> old(ids)@.contains(s) || counts@.contains_key(s),
{
    let ghost start = ids@;
    let ghost keys = spec_keys_iter(counts).remaining().unref();
    for k in it: counts.keys()
        invariant
            in_order(ids@),
            it.seq().unref() == keys,
            forall|s: u64| #[trigger]
                ids@.contains(s) <==> start.contains(s) || exists|j: int|
                    0 <= j < it.index() && (#[trigger] keys[j]) == s,
    {
        assert(keys[it.index()] == *k);
        insert_sorted(ids, *k);
    }
    assert(keys.to_set() == counts@.dom());
    assert forall|s: u64| counts@.contains_key(s) implies exists|j: int|
        0 <= j < keys.len() && (#[trigger] keys[j]) == s by {
        assert(keys.to_set().contains(s));
    }
    assert forall|j: int| 0 <= j < keys.len() implies counts@.contains_key(#[trigger] keys[j]) by {
        assert(keys.to_set().contains(keys[j]));
    }
}

/// What the pipeline has done, for all sessions and for each.
#[derive(Debug)]
pub struct MediaReport {
    pub video_packets_in: u64,
    pub audio_packets_in: u64,
    pub video_frame_seq: u64,
    pub metadata_channel_total: usize,
    pub video_total: usize,
    pub audio_total: usize,
    pub active_webrtc_total: usize,
    pub sessions: Vec<SessionRow>,
}

/// What the pipeline has done.
pub open spec fn reports<T, D>(
    r: MediaRegistryView<T, D>,
    active: Seq<u64>,
    report: MediaReport,
) -> bool {
    &&& report.video_packets_in == r.video_packets_in
    &&& report.audio_packets_in == r.audio_packets_in
    &&& report.video_frame_seq == r.video_frame_seq
    &&& report.metadata_channel_total == r.metadata_channels.len()
    &&& report.video_total == r.video_tracks.len()
    &&& report.audio_total == r.audio_tracks.len()
    &&& report.active_webrtc_total == active.len()
    &&& shows_sessions(r, active, report.sessions@)
}

impl<T, D> MediaRegistry<T, D> {
    /// The sessions that are active or that the registry knows, in the order of their numbers.
    fn known_sessions(&self, active: &Vec<u64>) -> (res: Vec<u64>)
        ensures
            in_order(res@),
            forall|s: u64| #[trigger] res@.contains(s) <==> to_show(self@, active@, s),
    {
        let mut ids: Vec<u64> = Vec::new();
        for i in 0..active.len()
            invariant
                in_order(ids@),
                forall|s: u64| #[trigger]
                    ids@.contains(s) <==> exists|j: int| 0 <= j < i && (#[trigger] active@[j]) == s,
        {
            insert_sorted(&mut ids, active[i]);
        }
        assert forall|s: u64| #[trigger] ids@.contains(s) <==> active@.contains(s) by {}
        collect_sessions(&mut ids, &self.video_tracks);
        collect_sessions(&mut ids, &self.audio_tracks);
        collect_channel_sessions(&mut ids, &self.metadata_channels);
        collect_keys(&mut ids, &self.video_packets_written);
        collect_keys(&mut ids, &self.audio_packets_written);
        ids
    }

    /// Tells what the pipeline has done, given the sessions that are active.
    pub fn report(&self, active: &Vec<u64>) -> (res: MediaReport)
        ensures
            reports(self@, active@, res),
    {
        let ids = self.known_sessions(active);
        let mut rows: Vec<SessionRow> = Vec::new();
        for i in 0..ids.len()
            invariant
                rows@.len() == i,
                forall|j: int|
                    0 <= j < i ==> #[trigger] rows@[j] == row_of(self@, active@, ids@[j]),
        {
            let s: u64 = ids[i];
            rows.push(
                SessionRow {
                    session_id: s,
                    active_webrtc_session: is_in(active, s),
                    video_tracks: count_tracks(&self.video_tracks, s),
                    audio_tracks: count_tracks(&self.audio_tracks, s),
                    metadata_channels: count_channels(&self.metadata_channels, s),
                    video_packets_written: count_of(&self.video_packets_written, s),
                    audio_packets_written: count_of(&self.audio_packets_written, s),
                },
            );
        }
        proof {
            assert forall|i: int, j: int| 0 <= i < j < rows@.len() implies (
            #[trigger] rows@[i]).session_id < (#[trigger] rows@[j]).session_id by {
                assert(ids@[i] < ids@[j]);
            }
            assert forall|i: int| 0 <= i < rows@.len() implies {
                let s = (#[trigger] rows@[i]).session_id;
                to_show(self@, active@, s) && rows@[i] == row_of(self@, active@, s)
            } by {
                assert(ids@.contains(ids@[i]));
            }
            assert forall|s: u64| #[trigger] to_show(self@, active@, s) implies exists|
                i: int,
            |
                0 <= i < rows@.len() && (#[trigger] rows@[i]).session_id == s by {
                assert(ids@.contains(s));
                let i = choose|i: int| 0 <= i < ids@.len() && ids@[i] == s;
                assert(rows@[i].session_id == s);
            }
            assert(shows_sessions(self@, active@, rows@));
        }
        MediaReport {
            video_packets_in: self.video_packets_in,
            audio_packets_in: self.audio_packets_in,
            video_frame_seq: self.video_frame_seq,
            metadata_channel_total: self.metadata_channels.len(),
            video_total: self.video_tracks.len(),
            audio_total: self.audio_tracks.len(),
            active_webrtc_total: active.len(),
            sessions: rows,
        }
    }
}

/// What there is to tell where no pipeline runs.
pub fn report_without_pipeline(active: &Vec<u64>) -> (res: MediaReport)
    ensures
        res.video_packets_in == 0,
        res.audio_packets_in == 0,
        res.video_frame_seq == 0,
        res.metadata_channel_total == 0,
        res.video_total == 0,
        res.audio_total == 0,
        res.active_webrtc_total == active@.len(),
        res.sessions@.len() == 0,
{
    MediaReport {
        video_packets_in: 0,
        audio_packets_in: 0,
        video_frame_seq: 0,
        metadata_channel_total: 0,
        video_total: 0,
        audio_total: 0,
        active_webrtc_total: active.len(),
        sessions: Vec::new(),
    }
}

/// Filtering out what is not there changes nothing; what was filtered is not there.
proof fn lemma_without_session<T>(tracks: Seq<(u64, T)>, session: u64)
    ensures
        !track_session(without_session(tracks, session), session),
        !track_session(tracks, session) ==> without_session(tracks, session) == tracks,
    decreases tracks.len(),
{
    let keep = |t: (u64, T)| other_session(t, session);
    let kept = tracks.filter(keep);
    if tracks.len() == 0 {
        assert(kept =~= tracks);
    } else {
        let front = tracks.drop_last();
        let last = tracks.last();
        lemma_without_session(front, session);
        assert(tracks =~= front.push(last));
        front.lemma_filter_push(last, keep);
        let f = without_session(front, session);
        if track_session(kept, session) {
            let i = choose|i: int| 0 <= i < kept.len() && (#[trigger] kept[i]).0 == session;
            if i < f.len() {
                assert(f[i].0 == session);
            } else {
                assert(kept[i] == last);
            }
        }
        if !track_session(tracks, session) {
            assert(tracks[tracks.len() - 1].0 != session);
            if track_session(front, session) {
                let i = choose|i: int| 0 <= i < front.len() && (#[trigger] front[i]).0 == session;
                assert(tracks[i].0 == session);
            }
        }
    }
}

proof fn lemma_channels_without_session<D>(channels: Seq<(u64, Seq<char>, D)>, session: u64)
    ensures
        !channel_session(channels_without_session(channels, session), session),
        !channel_session(channels, session) ==> channels_without_session(channels, session)
            == channels,
    decreases channels.len(),
{
    let keep = |c: (u64, Seq<char>, D)| channel_of_other(c, session);
    let kept = channels.filter(keep);
    if channels.len() == 0 {
        assert(kept =~= channels);
    } else {
        let front = channels.drop_last();
        let last = channels.last();
        lemma_channels_without_session(front, session);
        assert(channels =~= front.push(last));
        front.lemma_filter_push(last, keep);
        let f = channels_without_session(front, session);
        if channel_session(kept, session) {
            let i = choose|i: int| 0 <= i < kept.len() && (#[trigger] kept[i]).0 == session;
            if i < f.len() {
                assert(f[i].0 == session);
            } else {
                assert(kept[i] == last);
            }
        }
        if !channel_session(channels, session) {
            assert(channels[channels.len() - 1].0 != session);
            if channel_session(front, session) {
                let i = choose|i: int| 0 <= i < front.len() && (#[trigger] front[i]).0 == session;
                assert(channels[i].0 == session);
            }
        }
    }
}

/// Nothing of a session is left in the registry when it has been removed.
pub proof fn law_removed_session_leaves_no_trace<T, D>(r: MediaRegistryView<T, D>, session: u64)
    ensures
        !r.without(session).knows(session),
{
    lemma_without_session(r.video_tracks, session);
    lemma_without_session(r.audio_tracks, session);
    lemma_channels_without_session(r.metadata_channels, session);
}

/// Removing a session undoes registering it.
pub proof fn law_removing_undoes_registering<T, D>(
    r: MediaRegistryView<T, D>,
    session: u64,
    video: T,
    audio: T,
)
    requires
        !r.knows(session),
    ensures
        r.with_tracks(session, video, audio).without(session) == r,
{
    lemma_without_session(r.video_tracks, session);
    lemma_without_session(r.audio_tracks, session);
    lemma_channels_without_session(r.metadata_channels, session);
    let keep = |t: (u64, T)| other_session(t, session);
    r.video_tracks.lemma_filter_push((session, video), keep);
    r.audio_tracks.lemma_filter_push((session, audio), keep);
    assert(r.video_packets_written.remove(session) =~= r.video_packets_written);
    assert(r.audio_packets_written.remove(session) =~= r.audio_packets_written);
}

proof fn lemma_other_tracks<T>(tracks: Seq<(u64, T)>, session: u64, other: u64)
    requires
        other != session,
    ensures
        tracks_of(without_session(tracks, session), other) == tracks_of(tracks, other),
    decreases tracks.len(),
{
    let keep = |t: (u64, T)| other_session(t, session);
    let mine = |t: (u64, T)| !other_session(t, other);
    if tracks.len() == 0 {
        assert(tracks.filter(keep) =~= tracks);
    } else {
        let front = tracks.drop_last();
        let last = tracks.last();
        lemma_other_tracks(front, session, other);
        assert(tracks =~= front.push(last));
        front.lemma_filter_push(last, keep);
        front.lemma_filter_push(last, mine);
        front.filter(keep).lemma_filter_push(last, mine);
    }
}

proof fn lemma_other_channels<D>(channels: Seq<(u64, Seq<char>, D)>, session: u64, other: u64)
    requires
        other != session,
    ensures
        channels_of(channels_without_session(channels, session), other) == channels_of(
            channels,
            other,
        ),
    decreases channels.len(),
{
    let keep = |c: (u64, Seq<char>, D)| channel_of_other(c, session);
    let mine = |c: (u64, Seq<char>, D)| !channel_of_other(c, other);
    if channels.len() == 0 {
        assert(channels.filter(keep) =~= channels);
    } else {
        let front = channels.drop_last();
        let last = channels.last();
        lemma_other_channels(front, session, other);
        assert(channels =~= front.push(last));
        front.lemma_filter_push(last, keep);
        front.lemma_filter_push(last, mine);
        front.filter(keep).lemma_filter_push(last, mine);
    }
}

/// Removing a session changes nothing for the others.
pub proof fn law_removing_spares_the_others<T, D>(
    r: MediaRegistryView<T, D>,
    active: Seq<u64>,
    session: u64,
    other: u64,
)
    requires
        other != session,
    ensures
        row_of(r.without(session), active, other) == row_of(r, active, other),
{
    lemma_other_tracks(r.video_tracks, session, other);
    lemma_other_tracks(r.audio_tracks, session, other);
    lemma_other_channels(r.metadata_channels, session, other);
}

/// A channel that has been registered is the last one, and removing it removes also the one that it
/// has replaced.
pub proof fn law_channel_is_replaced<T, D>(
    r: MediaRegistryView<T, D>,
    session: u64,
    label: Seq<char>,
    channel: D,
)
    ensures
        r.with_channel(session, label, channel).metadata_channels.last() == (session, label, channel),
        without_channel(
            r.with_channel(session, label, channel).metadata_channels,
            session,
            label,
        ) == without_channel(r.metadata_channels, session, label),
{
    let keep = |c: (u64, Seq<char>, D)| other_channel(c, session, label);
    let kept = r.metadata_channels.filter(keep);
    kept.lemma_filter_push((session, label, channel), keep);
    lemma_filter_twice(r.metadata_channels, keep);
}

/// Filtering twice is filtering once.
proof fn lemma_filter_twice<A>(s: Seq<A>, keep: spec_fn(A) -> bool)
    ensures
        s.filter(keep).filter(keep) == s.filter(keep),
    decreases s.len(),
{
    if s.len() == 0 {
        assert(s.filter(keep) =~= s);
    } else {
        let front = s.drop_last();
        lemma_filter_twice(front, keep);
        assert(s =~= front.push(s.last()));
        front.lemma_filter_push(s.last(), keep);
        front.filter(keep).lemma_filter_push(s.last(), keep);
    }
}

/// How often a session was written to.
pub open spec fn times(sessions: Seq<u64>, session: u64) -> nat
    decreases sessions.len(),
{
    if sessions.len() == 0 {
        0
    } else {
        times(sessions.drop_last(), session) + if sessions.last() == session {
            1nat
        } else {
            0nat
        }
    }
}

/// The count of a session grows by the number of packets that were written to it.
pub proof fn law_writes_are_counted(counts: Map<u64, u64>, sessions: Seq<u64>, session: u64)
    requires
        forall|s: u64| #[trigger] counted(counts, s) + sessions.len() <= u64::MAX,
    ensures
        counted(counted_up(counts, sessions), session) == counted(counts, session) + times(
            sessions,
            session,
        ),
    decreases sessions.len(),
{
    if sessions.len() > 0 {
        let front = sessions.drop_last();
        assert forall|s: u64| #[trigger] counted(counts, s) + front.len() <= u64::MAX by {
            assert(counted(counts, s) + sessions.len() <= u64::MAX);
        }
        law_writes_are_counted(counts, front, session);
        lemma_counted_up(counts, front, sessions.last());
        assert(counted(counts, sessions.last()) + sessions.len() <= u64::MAX);
    }
}

/// The numbers of the sessions that rows show.
pub open spec fn shown_ids(rows: Seq<SessionRow>) -> Seq<u64> {
    rows.map_values(|row: SessionRow| row.session_id)
}

/// How many tracks the sessions have together.
pub open spec fn tracks_of_all<T>(tracks: Seq<(u64, T)>, sessions: Seq<u64>) -> nat
    decreases sessions.len(),
{
    if sessions.len() == 0 {
        0
    } else {
        tracks_of_all(tracks, sessions.drop_last()) + tracks_of(tracks, sessions.last())
    }
}

/// How many channels the sessions have together.
pub open spec fn channels_of_all<D>(
    channels: Seq<(u64, Seq<char>, D)>,
    sessions: Seq<u64>,
) -> nat
    decreases sessions.len(),
{
    if sessions.len() == 0 {
        0
    } else {
        channels_of_all(channels, sessions.drop_last()) + channels_of(channels, sessions.last())
    }
}

/// A number occurs once among numbers in order, or not at all.
proof fn lemma_times_in_order(ids: Seq<u64>, id: u64)
    requires
        in_order(ids),
    ensures
        times(ids, id) == if ids.contains(id) {
            1nat
        } else {
            0nat
        },
    decreases ids.len(),
{
    if ids.len() > 0 {
        let front = ids.drop_last();
        lemma_times_in_order(front, id);
        assert(ids =~= front.push(ids.last()));
        if ids.last() == id {
            assert(ids[ids.len() - 1] == id);
            if front.contains(id) {
                let i = choose|i: int| 0 <= i < front.len() && front[i] == id;
                assert(ids[i] < ids[ids.len() - 1]);
            }
        } else if ids.contains(id) {
            let i = choose|i: int| 0 <= i < ids.len() && ids[i] == id;
            assert(front[i] == id);
        } else if front.contains(id) {
            let i = choose|i: int| 0 <= i < front.len() && front[i] == id;
            assert(ids[i] == id);
        }
    }
}

proof fn lemma_one_track_more<T>(tracks: Seq<(u64, T)>, t: (u64, T), ids: Seq<u64>)
    ensures
        tracks_of_all(tracks.push(t), ids) == tracks_of_all(tracks, ids) + times(ids, t.0),
    decreases ids.len(),
{
    if ids.len() > 0 {
        let id = ids.last();
        lemma_one_track_more(tracks, t, ids.drop_last());
        tracks.lemma_filter_push(t, |t: (u64, T)| !other_session(t, id));
    }
}

proof fn lemma_one_channel_more<D>(
    channels: Seq<(u64, Seq<char>, D)>,
    c: (u64, Seq<char>, D),
    ids: Seq<u64>,
)
    ensures
        channels_of_all(channels.push(c), ids) == channels_of_all(channels, ids) + times(ids, c.0),
    decreases ids.len(),
{
    if ids.len() > 0 {
        let id = ids.last();
        lemma_one_channel_more(channels, c, ids.drop_last());
        channels.lemma_filter_push(c, |c: (u64, Seq<char>, D)| !channel_of_other(c, id));
    }
}

proof fn lemma_no_tracks<T>(ids: Seq<u64>)
    ensures
        tracks_of_all(Seq::<(u64, T)>::empty(), ids) == 0,
    decreases ids.len(),
{
    if ids.len() > 0 {
        let id = ids.last();
        lemma_no_tracks::<T>(ids.drop_last());
        let none = Seq::<(u64, T)>::empty();
        assert(none.filter(|t: (u64, T)| !other_session(t, id)) =~= none);
    }
}

proof fn lemma_no_channels<D>(ids: Seq<u64>)
    ensures
        channels_of_all(Seq::<(u64, Seq<char>, D)>::empty(), ids) == 0,
    decreases ids.len(),
{
    if ids.len() > 0 {
        let id = ids.last();
        lemma_no_channels::<D>(ids.drop_last());
        let none = Seq::<(u64, Seq<char>, D)>::empty();
        assert(none.filter(|c: (u64, Seq<char>, D)| !channel_of_other(c, id)) =~= none);
    }
}

proof fn lemma_tracks_add_up<T>(tracks: Seq<(u64, T)>, ids: Seq<u64>)
    requires
        in_order(ids),
        forall|s: u64| #[trigger] track_session(tracks, s) ==> ids.contains(s),
    ensures
        tracks_of_all(tracks, ids) == tracks.len(),
    decreases tracks.len(),
{
    if tracks.len() == 0 {
        assert(tracks =~= Seq::<(u64, T)>::empty());
        lemma_no_tracks::<T>(ids);
    } else {
        let front = tracks.drop_last();
        let last = tracks.last();
        assert forall|s: u64| #[trigger] track_session(front, s) implies ids.contains(s) by {
            let i = choose|i: int| 0 <= i < front.len() && (#[trigger] front[i]).0 == s;
            assert(tracks[i].0 == s);
            assert(track_session(tracks, s));
        }
        lemma_tracks_add_up(front, ids);
        assert(tracks =~= front.push(last));
        lemma_one_track_more(front, last, ids);
        assert(tracks[tracks.len() - 1].0 == last.0);
        assert(track_session(tracks, last.0));
        lemma_times_in_order(ids, last.0);
    }
}

proof fn lemma_channels_add_up<D>(channels: Seq<(u64, Seq<char>, D)>, ids: Seq<u64>)
    requires
        in_order(ids),
        forall|s: u64| #[trigger] channel_session(channels, s) ==> ids.contains(s),
    ensures
        channels_of_all(channels, ids) == channels.len(),
    decreases channels.len(),
{
    if channels.len() == 0 {
        assert(channels =~= Seq::<(u64, Seq<char>, D)>::empty());
        lemma_no_channels::<D>(ids);
    } else {
        let front = channels.drop_last();
        let last = channels.last();
        assert forall|s: u64| #[trigger] channel_session(front, s) implies ids.contains(s) by {
            let i = choose|i: int| 0 <= i < front.len() && (#[trigger] front[i]).0 == s;
            assert(channels[i].0 == s);
            assert(channel_session(channels, s));
        }
        lemma_channels_add_up(front, ids);
        assert(channels =~= front.push(last));
        lemma_one_channel_more(front, last, ids);
        assert(channels[channels.len() - 1].0 == last.0);
        assert(channel_session(channels, last.0));
        lemma_times_in_order(ids, last.0);
    }
}

/// The totals of a report are the sums of what the sessions have that it shows.
pub proof fn law_totals_are_the_sums<T, D>(
    r: MediaRegistryView<T, D>,
    active: Seq<u64>,
    rows: Seq<SessionRow>,
)
    requires
        shows_sessions(r, active, rows),
    ensures
        tracks_of_all(r.video_tracks, shown_ids(rows)) == r.video_tracks.len(),
        tracks_of_all(r.audio_tracks, shown_ids(rows)) == r.audio_tracks.len(),
        channels_of_all(r.metadata_channels, shown_ids(rows)) == r.metadata_channels.len(),
{
    let ids = shown_ids(rows);
    assert forall|i: int, j: int| 0 <= i < j < ids.len() implies #[trigger] ids[i]
        < #[trigger] ids[j] by {
        assert(rows[i].session_id < rows[j].session_id);
    }
    assert forall|s: u64| #[trigger] r.knows(s) implies ids.contains(s) by {
        assert(to_show(r, active, s));
        let i = choose|i: int| 0 <= i < rows.len() && (#[trigger] rows[i]).session_id == s;
        assert(ids[i] == s);
    }
    assert forall|s: u64| #[trigger] track_session(r.video_tracks, s) implies ids.contains(s) by {
        assert(r.knows(s));
    }
    assert forall|s: u64| #[trigger] track_session(r.audio_tracks, s) implies ids.contains(s) by {
        assert(r.knows(s));
    }
    assert forall|s: u64| #[trigger] channel_session(r.metadata_channels, s) implies ids.contains(
        s,
    ) by {
        assert(r.knows(s));
    }
    lemma_tracks_add_up(r.video_tracks, ids);
    lemma_tracks_add_up(r.audio_tracks, ids);
    lemma_channels_add_up(r.metadata_channels, ids);
}

/// What is known of a program that was started.
#[derive(Clone, Copy, Debug, PartialEq, Eq, Structural)]
pub enum ChildProbe {
    /// There is none.
    Absent,
    /// It could not be asked for.
    Unknown,
    Running,
    Exited,
}

/// The program runs, as far as is known.
pub open spec fn runs(child: ChildProbe) -> bool {
    child is Running || child is Unknown
}

/// Whether a program runs, as far as is known.
pub fn child_running(child: ChildProbe) -> (res: bool)
    ensures
        res == runs(child),
{
    match child {
        ChildProbe::Running | ChildProbe::Unknown => true,
        ChildProbe::Absent | ChildProbe::Exited => false,
    }
}

/// The programs that a pipeline needs run: the video and the audio encoder, and the capture of the
/// camera where there is one.
pub open spec fn workers_live(video: ChildProbe, audio: ChildProbe, camera: ChildProbe) -> bool {
    runs(video) && runs(audio) && (camera is Absent || runs(camera))
}

/// Whether the programs that a pipeline needs run.
pub fn has_live_media_workers(video: ChildProbe, audio: ChildProbe, camera: ChildProbe) -> (res: bool)
    ensures
        res == workers_live(video, audio, camera),
{
    child_running(video) && child_running(audio) && (match camera {
        ChildProbe::Absent => true,
        _ => child_running(camera),
    })
}

/// What is told of a program: its number, where there is one, and whether it runs.
pub fn child_debug_info(pid: u32, child: ChildProbe) -> (res: (Option<u32>, bool))
    ensures
        res.0 == (if child is Absent {
            None
        } else {
            Some(pid)
        }),
        res.1 == runs(child),
{
    match child {
        ChildProbe::Absent => (None, false),
        _ => (Some(pid), child_running(child)),
    }
}

/// What came of starting another camera: an error where the encoder or the capture does not run.
pub fn check_camera_restart(video: ChildProbe, camera: ChildProbe, camera_device: &str) -> (res: Result<
    (),
    String,
>)
    ensures
        match res {
            Ok(_) => runs(video) && runs(camera),
            Err(message) => !(runs(video) && runs(camera)) && message@
                == "camera capture process exited while starting "@ + camera_device@,
        },
{
    if !child_running(video) || !child_running(camera) {
        Err(joined("camera capture process exited while starting ", camera_device))
    } else {
        Ok(())
    }
}

/// `kept` holds exactly the tracks of other sessions, in their order; `at` tells where each stood.
pub open spec fn are_tracks_of_others<T>(
    tracks: Seq<(u64, T)>,
    session: u64,
    kept: Seq<(u64, T)>,
    at: Seq<int>,
) -> bool {
    &&& at.len() == kept.len()
    &&& forall|i: int|
        0 <= i < at.len() ==> 0 <= (#[trigger] at[i]) < tracks.len() && kept[i] == tracks[at[i]]
            && tracks[at[i]].0 != session
    &&& forall|i: int, j: int| 0 <= i < j < at.len() ==> (#[trigger] at[i]) < (#[trigger] at[j])
    &&& forall|k: int| 0 <= k < tracks.len() && (#[trigger] tracks[k]).0 != session ==> at.contains(k)
}

/// `kept` holds exactly the channels that are not named, in their order; `at` tells where each stood.
pub open spec fn are_other_channels<D>(
    channels: Seq<(u64, Seq<char>, D)>,
    named: spec_fn(u64, Seq<char>) -> bool,
    kept: Seq<(u64, Seq<char>, D)>,
    at: Seq<int>,
) -> bool {
    &&& at.len() == kept.len()
    &&& forall|i: int|
        0 <= i < at.len() ==> 0 <= (#[trigger] at[i]) < channels.len() && kept[i] == channels[at[i]]
            && !named(channels[at[i]].0, channels[at[i]].1)
    &&& forall|i: int, j: int| 0 <= i < j < at.len() ==> (#[trigger] at[i]) < (#[trigger] at[j])
    &&& forall|k: int|
        0 <= k < channels.len() && !named((#[trigger] channels[k]).0, channels[k].1) ==> at.contains(k)
}

/// Removing a session leaves exactly the tracks of the others, in their order.
pub proof fn law_tracks_of_others_stay<T>(tracks: Seq<(u64, T)>, session: u64) -> (at: Seq<int>)
    ensures
        are_tracks_of_others(tracks, session, without_session(tracks, session), at),
{
    let keep = |t: (u64, T)| other_session(t, session);
    let wanted = |t: (u64, T)| t.0 != session;
    let at = lemma_filter_selects(tracks, keep, wanted);
    let kept = without_session(tracks, session);
    assert(is_selection(tracks, kept, at, wanted));
    assert forall|i: int| 0 <= i < at.len() implies 0 <= (#[trigger] at[i]) < tracks.len() && kept[i]
        == tracks[at[i]] && tracks[at[i]].0 != session by {
        assert(wanted(tracks[at[i]]));
    }
    assert forall|k: int| 0 <= k < tracks.len() && (#[trigger] tracks[k]).0 != session implies at.contains(
        k,
    ) by {
        assert(wanted(tracks[k]));
    }
    at
}

proof fn lemma_other_channels_stay<D>(
    channels: Seq<(u64, Seq<char>, D)>,
    keep: spec_fn((u64, Seq<char>, D)) -> bool,
    named: spec_fn(u64, Seq<char>) -> bool,
) -> (at: Seq<int>)
    requires
        forall|c: (u64, Seq<char>, D)| #[trigger] keep(c) == !named(c.0, c.1),
    ensures
        are_other_channels(channels, named, channels.filter(keep), at),
{
    let at = lemma_filter_selects(channels, keep, keep);
    let kept = channels.filter(keep);
    assert(is_selection(channels, kept, at, keep));
    assert forall|i: int| 0 <= i < at.len() implies 0 <= (#[trigger] at[i]) < channels.len()
        && kept[i] == channels[at[i]] && !named(channels[at[i]].0, channels[at[i]].1) by {
        assert(keep(channels[at[i]]));
    }
    assert forall|k: int|
        0 <= k < channels.len() && !named((#[trigger] channels[k]).0, channels[k].1) implies at.contains(
        k,
    ) by {
        assert(keep(channels[k]));
    }
    at
}

/// Removing a session leaves exactly the channels of the others, in their order.
pub proof fn law_channels_of_others_stay<D>(channels: Seq<(u64, Seq<char>, D)>, session: u64) -> (at:
    Seq<int>)
    ensures
        are_other_channels(
            channels,
            |s: u64, label: Seq<char>| s == session,
            channels_without_session(channels, session),
            at,
        ),
{
    lemma_other_channels_stay(
        channels,
        |c: (u64, Seq<char>, D)| channel_of_other(c, session),
        |s: u64, label: Seq<char>| s == session,
    )
}

/// Removing a channel, or putting another one in its place, leaves exactly those of other sessions and
/// those of other labels, in their order; the new one comes behind them.
pub proof fn law_channels_of_other_labels_stay<T, D>(
    r: MediaRegistryView<T, D>,
    session: u64,
    label: Seq<char>,
    channel: D,
) -> (at: Seq<int>)
    ensures
        are_other_channels(
            r.metadata_channels,
            |s: u64, l: Seq<char>| s == session && l == label,
            without_channel(r.metadata_channels, session, label),
            at,
        ),
        r.with_channel(session, label, channel).metadata_channels == without_channel(
            r.metadata_channels,
            session,
            label,
        ).push((session, label, channel)),
        r.with_channel(session, label, channel).video_tracks == r.video_tracks,
        r.with_channel(session, label, channel).audio_tracks == r.audio_tracks,
        r.with_channel(session, label, channel).video_packets_written == r.video_packets_written,
        r.with_channel(session, label, channel).audio_packets_written == r.audio_packets_written,
        r.with_channel(session, label, channel).video_packets_in == r.video_packets_in,
        r.with_channel(session, label, channel).audio_packets_in == r.audio_packets_in,
        r.with_channel(session, label, channel).video_frame_seq == r.video_frame_seq,
{
    lemma_other_channels_stay(
        r.metadata_channels,
        |c: (u64, Seq<char>, D)| other_channel(c, session, label),
        |s: u64, l: Seq<char>| s == session && l == label,
    )
}

/// Removing the channels over which nothing could be sent leaves exactly the others, in their order.
pub proof fn law_channels_that_work_stay<D>(
    channels: Seq<(u64, Seq<char>, D)>,
    stale: Seq<(u64, Seq<char>)>,
) -> (at: Seq<int>)
    ensures
        are_other_channels(
            channels,
            |s: u64, label: Seq<char>| stale.contains((s, label)),
            without_channels(channels, stale),
            at,
        ),
{
    lemma_other_channels_stay(
        channels,
        |c: (u64, Seq<char>, D)| unnamed_channel(c, stale),
        |s: u64, label: Seq<char>| stale.contains((s, label)),
    )
}

/// Registering a session adds its two tracks, the video track to those of video and the audio track to
/// those of sound, behind the others; removing it takes its tracks, its channels and what was counted
/// for it. Neither changes what came in or how many frames there were.
pub proof fn law_registering_and_removing<T, D>(
    r: MediaRegistryView<T, D>,
    session: u64,
    video: T,
    audio: T,
)
    ensures
        ({
            let more = r.with_tracks(session, video, audio);
            &&& more.video_tracks == r.video_tracks.push((session, video))
            &&& more.audio_tracks == r.audio_tracks.push((session, audio))
            &&& more.metadata_channels == r.metadata_channels
            &&& more.video_packets_written == r.video_packets_written
            &&& more.audio_packets_written == r.audio_packets_written
            &&& more.video_packets_in == r.video_packets_in
            &&& more.audio_packets_in == r.audio_packets_in
            &&& more.video_frame_seq == r.video_frame_seq
        }),
        ({
            let less = r.without(session);
            &&& less.video_tracks == without_session(r.video_tracks, session)
            &&& less.audio_tracks == without_session(r.audio_tracks, session)
            &&& less.metadata_channels == channels_without_session(r.metadata_channels, session)
            &&& less.video_packets_written == r.video_packets_written.remove(session)
            &&& less.audio_packets_written == r.audio_packets_written.remove(session)
            &&& less.video_packets_in == r.video_packets_in
            &&& less.audio_packets_in == r.audio_packets_in
            &&& less.video_frame_seq == r.video_frame_seq
        }),
{
}

/// A packet that comes in is counted for its own kind and changes nothing else; the count begins again
/// at zero behind the greatest number.
pub proof fn law_packets_that_come_in<T, D>(r: MediaRegistryView<T, D>)
    ensures
        r.with_packet(Media::Video) == (MediaRegistryView {
            video_packets_in: r.with_packet(Media::Video).video_packets_in,
            ..r
        }),
        r.with_packet(Media::Audio) == (MediaRegistryView {
            audio_packets_in: r.with_packet(Media::Audio).audio_packets_in,
            ..r
        }),
        r.with_packet(Media::Video).video_packets_in == (r.video_packets_in + 1)
            % 0x1_0000_0000_0000_0000,
        r.with_packet(Media::Audio).audio_packets_in == (r.audio_packets_in + 1)
            % 0x1_0000_0000_0000_0000,
        r.written(Media::Video) == r.video_packets_written,
        r.written(Media::Audio) == r.audio_packets_written,
{
}

/// Something has been counted for a session exactly where something had been or it was written to; and
/// for one that was not written to, what is counted stays.
pub proof fn law_sessions_that_are_counted(
    counts: Map<u64, u64>,
    sessions: Seq<u64>,
    session: u64,
)
    ensures
        counted_up(counts, sessions).contains_key(session) <==> counts.contains_key(session)
            || sessions.contains(session),
        !sessions.contains(session) && counts.contains_key(session) ==> counted_up(
            counts,
            sessions,
        )[session] == counts[session],
        counts.contains_key(session) ==> counted(counts, session) == counts[session],
        !counts.contains_key(session) ==> counted(counts, session) == 0,
    decreases sessions.len(),
{
    if sessions.len() > 0 {
        let front = sessions.drop_last();
        law_sessions_that_are_counted(counts, front, session);
        if front.contains(session) {
            let i = choose|i: int| 0 <= i < front.len() && front[i] == session;
            assert(sessions[i] == session);
        }
        if sessions.contains(session) && sessions.last() != session {
            let i = choose|i: int| 0 <= i < sessions.len() && sessions[i] == session;
            assert(front[i] == session);
        }
        assert(sessions[sessions.len() - 1] == sessions.last());
    }
}

/// Packets are counted one by one for each session.
pub proof fn law_times_are_counted(sessions: Seq<u64>, s: u64, session: u64)
    ensures
        times(Seq::empty(), session) == 0,
        times(sessions.push(s), session) == times(sessions, session) + if s == session {
            1nat
        } else {
            0nat
        },
{
    assert(sessions.push(s).drop_last() =~= sessions);
}

/// A track or a channel more counts for its own session and for no other.
pub proof fn law_tracks_and_channels_are_counted<T, D>(
    tracks: Seq<(u64, T)>,
    t: (u64, T),
    channels: Seq<(u64, Seq<char>, D)>,
    c: (u64, Seq<char>, D),
    session: u64,
)
    ensures
        tracks_of(tracks.push(t), session) == tracks_of(tracks, session) + if t.0 == session {
            1nat
        } else {
            0nat
        },
        channels_of(channels.push(c), session) == channels_of(channels, session) + if c.0 == session {
            1nat
        } else {
            0nat
        },
        tracks_of(Seq::<(u64, T)>::empty(), session) == 0,
        channels_of(Seq::<(u64, Seq<char>, D)>::empty(), session) == 0,
{
    let mine = |t: (u64, T)| !other_session(t, session);
    let own = |c: (u64, Seq<char>, D)| !channel_of_other(c, session);
    tracks.lemma_filter_push(t, mine);
    channels.lemma_filter_push(c, own);
    Seq::<(u64, T)>::empty().lemma_filter_len(mine);
    Seq::<(u64, Seq<char>, D)>::empty().lemma_filter_len(own);
}

/// A session is shown exactly where it is active, has a track or a channel, or something has been
/// counted for it; its row tells whether it is active, how many tracks of each kind and how many
/// channels it has, and how many packets of each kind were written to it.
pub proof fn law_rows_of_sessions<T, D>(
    r: MediaRegistryView<T, D>,
    active: Seq<u64>,
    session: u64,
)
    requires
        r.video_tracks.len() <= usize::MAX,
        r.audio_tracks.len() <= usize::MAX,
        r.metadata_channels.len() <= usize::MAX,
    ensures
        to_show(r, active, session) <==> active.contains(session) || (exists|i: int|
            0 <= i < r.video_tracks.len() && (#[trigger] r.video_tracks[i]).0 == session) || (exists|
            i: int,
        |
            0 <= i < r.audio_tracks.len() && (#[trigger] r.audio_tracks[i]).0 == session) || (exists|
            i: int,
        |
            0 <= i < r.metadata_channels.len() && (#[trigger] r.metadata_channels[i]).0 == session)
            || r.video_packets_written.contains_key(session)
            || r.audio_packets_written.contains_key(session),
        ({
            let row = row_of(r, active, session);
            &&& row.session_id == session
            &&& row.active_webrtc_session == active.contains(session)
            &&& row.video_tracks == tracks_of(r.video_tracks, session)
            &&& row.audio_tracks == tracks_of(r.audio_tracks, session)
            &&& row.metadata_channels == channels_of(r.metadata_channels, session)
            &&& row.video_packets_written == counted(r.video_packets_written, session)
            &&& row.audio_packets_written == counted(r.audio_packets_written, session)
        }),
{
    r.video_tracks.lemma_filter_len(|t: (u64, T)| !other_session(t, session));
    r.audio_tracks.lemma_filter_len(|t: (u64, T)| !other_session(t, session));
    r.metadata_channels.lemma_filter_len(
        |c: (u64, Seq<char>, D)| !channel_of_other(c, session),
    );
}

/// A pipeline serves exactly where both encoders run and no capture of a camera has ended; a program
/// that could not be asked for is taken to run, one that is not there or has ended is not.
pub proof fn law_what_a_pipeline_needs(video: ChildProbe, audio: ChildProbe, camera: ChildProbe)
    ensures
        runs(ChildProbe::Running),
        runs(ChildProbe::Unknown),
        !runs(ChildProbe::Absent),
        !runs(ChildProbe::Exited),
        workers_live(video, audio, camera) <==> (video is Running || video is Unknown) && (
        audio is Running || audio is Unknown) && !(camera is Exited),
{
}

/// A report tells what came in, how many frames there were, and how many channels, tracks of each kind
/// and active sessions there are; its rows are in the order of the numbers of the sessions, one for
/// each session that is to be shown and for no other, and tell what the registry holds of it.
pub proof fn law_what_a_report_tells<T, D>(
    r: MediaRegistryView<T, D>,
    active: Seq<u64>,
    report: MediaReport,
    session: u64,
)
    requires
        reports(r, active, report),
    ensures
        report.video_packets_in == r.video_packets_in,
        report.audio_packets_in == r.audio_packets_in,
        report.video_frame_seq == r.video_frame_seq,
        report.metadata_channel_total == r.metadata_channels.len(),
        report.video_total == r.video_tracks.len(),
        report.audio_total == r.audio_tracks.len(),
        report.active_webrtc_total == active.len(),
        forall|i: int, j: int|
            0 <= i < j < report.sessions@.len() ==> (#[trigger] report.sessions@[i]).session_id < (
            #[trigger] report.sessions@[j]).session_id,
        forall|i: int|
            0 <= i < report.sessions@.len() ==> (#[trigger] report.sessions@[i]) == row_of(
                r,
                active,
                report.sessions@[i].session_id,
            ),
        to_show(r, active, session) <==> exists|i: int|
            0 <= i < report.sessions@.len() && (#[trigger] report.sessions@[i]).session_id == session,
{
}

/// What is said of a registry is what it holds; of a channel, its session, its label and itself.
pub proof fn law_view_of_a_registry<T, D>(r: MediaRegistry<T, D>, i: int)
    ensures
        r@.video_tracks == r.video_tracks@,
        r@.audio_tracks == r.audio_tracks@,
        r@.video_packets_written == r.video_packets_written@,
        r@.audio_packets_written == r.audio_packets_written@,
        r@.video_packets_in == r.video_packets_in,
        r@.audio_packets_in == r.audio_packets_in,
        r@.video_frame_seq == r.video_frame_seq,
        r@.metadata_channels.len() == r.metadata_channels@.len(),
        0 <= i < r.metadata_channels@.len() ==> r@.metadata_channels[i] == (
            r.metadata_channels@[i].0,
            r.metadata_channels@[i].1@,
            r.metadata_channels@[i].2,
        ),
{
}

} // verus!
