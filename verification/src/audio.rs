//! Playback: what the audio thread does on each command.

use crate::key::NodeId;
use vstd::prelude::*;

verus! {

/// What is playing: a track that was played has a label, a peer and perhaps a
/// length, which stay when it is stopped.
#[derive(Debug)]
pub struct Player {
    /// Whether a track is loaded.
    playing: bool,
    label: String,
    peer: Option<NodeId>,
    duration: Option<u128>,
}

/// The state of a player as a value of the model. Lengths are nanoseconds.
pub struct Playback {
    pub playing: bool,
    pub label: Seq<char>,
    pub peer: Option<NodeId>,
    pub duration: Option<u128>,
}

impl View for Player {
    type V = Playback;

    closed spec fn view(&self) -> Playback {
        Playback {
            playing: self.playing,
            label: self.label@,
            peer: self.peer,
            duration: self.duration,
        }
    }
}

/// What to do with the output on a command to pause.
#[derive(Debug, Clone, Copy, PartialEq, Eq, Structural)]
pub enum PauseAction {
    Nothing,
    Play,
    Pause,
}

/// What to do with the output on a command to seek.
#[derive(Debug, Clone, Copy, PartialEq, Eq, Structural)]
pub enum SeekAction {
    Nothing,
    /// Go to the start.
    ToStart,
    /// Go to the position.
    ToPosition,
    /// Stop, and unload the track.
    Stop,
}

/// What is told of a track that is loaded.
#[derive(Debug)]
pub struct Track {
    pub label: String,
    pub peer: NodeId,
    pub duration: Option<u128>,
}

impl Player {
    /// Whatever is loaded came from a peer.
    #[verifier::type_invariant]
    spec fn has_peer(self) -> bool {
        self.playing ==> self.peer is Some
    }

    /// Nothing has been played yet.
    pub fn new() -> (player: Self)
        ensures
            !player@.playing,
            player@.label == Seq::<char>::empty(),
            player@.peer is None,
            player@.duration is None,
    {
        let label = String::new();
        assert(label@ =~= Seq::<char>::empty());
        Player { playing: false, label, peer: None, duration: None }
    }

    /// Unloads the track, and tells whether there was one to stop.
    pub fn stop(&mut self) -> (stopped: bool)
        ensures
            stopped == old(self)@.playing,
            final(self)@ == (Playback { playing: false, ..old(self)@ }),
    {
        let stopped = self.playing;
        self.playing = false;
        stopped
    }

    /// Loads a track that could be decoded. The track before it is to be
    /// stopped first.
    pub fn load(&mut self, label: String, peer: NodeId, duration: Option<u128>)
        ensures
            final(self)@ == (Playback { playing: true, label: label@, peer: Some(peer), duration }),
    {
        *self = Player { playing: true, label, peer: Some(peer), duration };
    }

    /// Pauses, or plays on. Whether the output is paused is up to the output.
    pub fn pause(&self, paused: bool) -> (action: PauseAction)
        ensures
            action == if !self@.playing {
                PauseAction::Nothing
            } else if paused {
                PauseAction::Play
            } else {
                PauseAction::Pause
            },
            action is Nothing <==> !self@.playing,
            action is Play ==> paused,
            action is Pause ==> !paused,
    {
        if !self.playing {
            PauseAction::Nothing
        } else if paused {
            PauseAction::Play
        } else {
            PauseAction::Pause
        }
    }

    /// Goes to another position: one at or before the start is the start, and
    /// one at or behind the end ends the track.
    pub fn seek(&mut self, before_start: bool, past_end: bool) -> (action: SeekAction)
        ensures
            action == if !old(self)@.playing {
                SeekAction::Nothing
            } else if before_start {
                SeekAction::ToStart
            } else if past_end {
                SeekAction::Stop
            } else {
                SeekAction::ToPosition
            },
            action is Nothing <==> !old(self)@.playing,
            action is ToStart <==> old(self)@.playing && before_start,
            action is Stop <==> old(self)@.playing && !before_start && past_end,
            final(self)@.playing <==> old(self)@.playing && !(action is Stop),
            final(self)@ == if action is Stop {
                Playback { playing: false, ..old(self)@ }
            } else {
                old(self)@
            },
    {
        if !self.playing {
            SeekAction::Nothing
        } else if before_start {
            SeekAction::ToStart
        } else if past_end {
            self.playing = false;
            SeekAction::Stop
        } else {
            SeekAction::ToPosition
        }
    }

    /// The length of the track.
    pub fn duration(&self) -> (duration: Option<u128>)
        ensures
            duration == self@.duration,
    {
        self.duration
    }

    /// The track that is loaded.
    pub fn track(&self) -> (track: Option<Track>)
        ensures
            track is Some <==> self@.playing,
            track matches Some(shown) ==> shown.label@ == self@.label && Some(shown.peer)
                == self@.peer && shown.duration == self@.duration,
    {
        proof {
            use_type_invariant(self);
        }
        match self.peer {
            Some(peer) => if self.playing {
                Some(Track { label: self.label.clone(), peer, duration: self.duration })
            } else {
                None
            },
            None => None,
        }
    }
}

} // verus!
