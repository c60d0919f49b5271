//! Why a chain, a block or a summary is refused, and the words for it.

use crate::text;
use crate::text::append_number;
use vstd::prelude::*;
use vstd::string::*;

verus! {

/// Why a chain is refused.
#[derive(Debug, PartialEq, Eq)]
pub enum Fault {
    NotHeightZero,
    NotZeroRoot,
    NotGenesis,
    ThresholdOutOfRange,
    RosterSize,
    IdMismatch,
    NotFullySigned,
    HeightGap {
        height: u64,
        head: u64,
    },
    BrokenLink {
        height: u64,
    },
    LateGenesis,
    AppliedTwice {
        id: u64,
    },
    CheckpointHeight {
        upto: u64,
        height: u64,
    },
    ConsentOnNonRestore {
        height: u64,
    },
    CountedTwice {
        height: u64,
        member: String,
    },
    RestoresUnknown {
        height: u64,
    },
    ConsentInvalid {
        height: u64,
        member: String,
    },
    BelowThreshold {
        height: u64,
        have: u64,
        need: u8,
    },
    JoinedUnsupported,
    UnknownSeat {
        member: String,
    },
    SeatKeyMoved {
        member: String,
    },
    BelowCoverage {
        upto: u64,
        floor: u64,
    },
    StateMismatch {
        upto: u64,
    },
    EmptyChain,
    NoGenesis,
    EmptySuffix,
    NoCheckpoint,
    BlobCoverage,
    BlobHash,
    AnchorHeight,
    FoundingMismatch,
    RuleOutOfRange,
    FoundingSize,
    RosterNotAnchored {
        member: String,
    },
    AnchorThreshold {
        have: u64,
        need: u8,
    },
    NoConstitution,
    WrongRepublic,
}

/// The model of [`Fault`].
pub enum FaultV {
    NotHeightZero,
    NotZeroRoot,
    NotGenesis,
    ThresholdOutOfRange,
    RosterSize,
    IdMismatch,
    NotFullySigned,
    HeightGap {
        height: u64,
        head: u64,
    },
    BrokenLink {
        height: u64,
    },
    LateGenesis,
    AppliedTwice {
        id: u64,
    },
    CheckpointHeight {
        upto: u64,
        height: u64,
    },
    ConsentOnNonRestore {
        height: u64,
    },
    CountedTwice {
        height: u64,
        member: Seq<char>,
    },
    RestoresUnknown {
        height: u64,
    },
    ConsentInvalid {
        height: u64,
        member: Seq<char>,
    },
    BelowThreshold {
        height: u64,
        have: u64,
        need: u8,
    },
    JoinedUnsupported,
    UnknownSeat {
        member: Seq<char>,
    },
    SeatKeyMoved {
        member: Seq<char>,
    },
    BelowCoverage {
        upto: u64,
        floor: u64,
    },
    StateMismatch {
        upto: u64,
    },
    EmptyChain,
    NoGenesis,
    EmptySuffix,
    NoCheckpoint,
    BlobCoverage,
    BlobHash,
    AnchorHeight,
    FoundingMismatch,
    RuleOutOfRange,
    FoundingSize,
    RosterNotAnchored {
        member: Seq<char>,
    },
    AnchorThreshold {
        have: u64,
        need: u8,
    },
    NoConstitution,
    WrongRepublic,
}

impl DeepView for Fault {
    type V = FaultV;

    open spec fn deep_view(&self) -> FaultV {
        match *self {
            Fault::NotHeightZero => FaultV::NotHeightZero,
            Fault::NotZeroRoot => FaultV::NotZeroRoot,
            Fault::NotGenesis => FaultV::NotGenesis,
            Fault::ThresholdOutOfRange => FaultV::ThresholdOutOfRange,
            Fault::RosterSize => FaultV::RosterSize,
            Fault::IdMismatch => FaultV::IdMismatch,
            Fault::NotFullySigned => FaultV::NotFullySigned,
            Fault::HeightGap { height, head } => FaultV::HeightGap {
                height,
                head,
            },
            Fault::BrokenLink { height } => FaultV::BrokenLink {
                height,
            },
            Fault::LateGenesis => FaultV::LateGenesis,
            Fault::AppliedTwice { id } => FaultV::AppliedTwice {
                id,
            },
            Fault::CheckpointHeight { upto, height } => FaultV::CheckpointHeight {
                upto,
                height,
            },
            Fault::ConsentOnNonRestore { height } => FaultV::ConsentOnNonRestore {
                height,
            },
            Fault::CountedTwice { height, member } => FaultV::CountedTwice {
                height,
                member: member@,
            },
            Fault::RestoresUnknown { height } => FaultV::RestoresUnknown {
                height,
            },
            Fault::ConsentInvalid { height, member } => FaultV::ConsentInvalid {
                height,
                member: member@,
            },
            Fault::BelowThreshold { height, have, need } => FaultV::BelowThreshold {
                height,
                have,
                need,
            },
            Fault::JoinedUnsupported => FaultV::JoinedUnsupported,
            Fault::UnknownSeat { member } => FaultV::UnknownSeat {
                member: member@,
            },
            Fault::SeatKeyMoved { member } => FaultV::SeatKeyMoved {
                member: member@,
            },
            Fault::BelowCoverage { upto, floor } => FaultV::BelowCoverage {
                upto,
                floor,
            },
            Fault::StateMismatch { upto } => FaultV::StateMismatch {
                upto,
            },
            Fault::EmptyChain => FaultV::EmptyChain,
            Fault::NoGenesis => FaultV::NoGenesis,
            Fault::EmptySuffix => FaultV::EmptySuffix,
            Fault::NoCheckpoint => FaultV::NoCheckpoint,
            Fault::BlobCoverage => FaultV::BlobCoverage,
            Fault::BlobHash => FaultV::BlobHash,
            Fault::AnchorHeight => FaultV::AnchorHeight,
            Fault::FoundingMismatch => FaultV::FoundingMismatch,
            Fault::RuleOutOfRange => FaultV::RuleOutOfRange,
            Fault::FoundingSize => FaultV::FoundingSize,
            Fault::RosterNotAnchored { member } => FaultV::RosterNotAnchored {
                member: member@,
            },
            Fault::AnchorThreshold { have, need } => FaultV::AnchorThreshold {
                have,
                need,
            },
            Fault::NoConstitution => FaultV::NoConstitution,
            Fault::WrongRepublic => FaultV::WrongRepublic,
        }
    }
}

impl Clone for Fault {
    fn clone(&self) -> (r: Self)
        ensures
            r.deep_view() == self.deep_view(),
    {
        match self {
            Fault::NotHeightZero => Fault::NotHeightZero,
            Fault::NotZeroRoot => Fault::NotZeroRoot,
            Fault::NotGenesis => Fault::NotGenesis,
            Fault::ThresholdOutOfRange => Fault::ThresholdOutOfRange,
            Fault::RosterSize => Fault::RosterSize,
            Fault::IdMismatch => Fault::IdMismatch,
            Fault::NotFullySigned => Fault::NotFullySigned,
            Fault::HeightGap { height, head } => Fault::HeightGap {
                height: *height,
                head: *head,
            },
            Fault::BrokenLink { height } => Fault::BrokenLink {
                height: *height,
            },
            Fault::LateGenesis => Fault::LateGenesis,
            Fault::AppliedTwice { id } => Fault::AppliedTwice {
                id: *id,
            },
            Fault::CheckpointHeight { upto, height } => Fault::CheckpointHeight {
                upto: *upto,
                height: *height,
            },
            Fault::ConsentOnNonRestore { height } => Fault::ConsentOnNonRestore {
                height: *height,
            },
            Fault::CountedTwice { height, member } => Fault::CountedTwice {
                height: *height,
                member: member.clone(),
            },
            Fault::RestoresUnknown { height } => Fault::RestoresUnknown {
                height: *height,
            },
            Fault::ConsentInvalid { height, member } => Fault::ConsentInvalid {
                height: *height,
                member: member.clone(),
            },
            Fault::BelowThreshold { height, have, need } => Fault::BelowThreshold {
                height: *height,
                have: *have,
                need: *need,
            },
            Fault::JoinedUnsupported => Fault::JoinedUnsupported,
            Fault::UnknownSeat { member } => Fault::UnknownSeat {
                member: member.clone(),
            },
            Fault::SeatKeyMoved { member } => Fault::SeatKeyMoved {
                member: member.clone(),
            },
            Fault::BelowCoverage { upto, floor } => Fault::BelowCoverage {
                upto: *upto,
                floor: *floor,
            },
            Fault::StateMismatch { upto } => Fault::StateMismatch {
                upto: *upto,
            },
            Fault::EmptyChain => Fault::EmptyChain,
            Fault::NoGenesis => Fault::NoGenesis,
            Fault::EmptySuffix => Fault::EmptySuffix,
            Fault::NoCheckpoint => Fault::NoCheckpoint,
            Fault::BlobCoverage => Fault::BlobCoverage,
            Fault::BlobHash => Fault::BlobHash,
            Fault::AnchorHeight => Fault::AnchorHeight,
            Fault::FoundingMismatch => Fault::FoundingMismatch,
            Fault::RuleOutOfRange => Fault::RuleOutOfRange,
            Fault::FoundingSize => Fault::FoundingSize,
            Fault::RosterNotAnchored { member } => Fault::RosterNotAnchored {
                member: member.clone(),
            },
            Fault::AnchorThreshold { have, need } => Fault::AnchorThreshold {
                have: *have,
                need: *need,
            },
            Fault::NoConstitution => Fault::NoConstitution,
            Fault::WrongRepublic => Fault::WrongRepublic,
        }
    }
}

impl FaultV {
    /// The refusal in words.
    pub open spec fn text(self) -> Seq<char> {
        match self {
            FaultV::NotHeightZero => "genesis is not at height 0"@,
            FaultV::NotZeroRoot => "genesis prev is not the zero root"@,
            FaultV::NotGenesis => "block 0 is not a genesis"@,
            FaultV::ThresholdOutOfRange => "genesis threshold is out of range"@,
            FaultV::RosterSize => "genesis roster size does not match n"@,
            FaultV::IdMismatch => "genesis republic id does not match its content"@,
            FaultV::NotFullySigned => "genesis is not fully signed by every member"@,
            FaultV::HeightGap { height, head } => "block height "@ + text::dec(height as nat) + " does not follow "@ + text::dec(head as nat),
            FaultV::BrokenLink { height } => "block "@ + text::dec(height as nat) + " does not link to its predecessor"@,
            FaultV::LateGenesis => "a genesis cannot appear after height 0"@,
            FaultV::AppliedTwice { id } => "proposal "@ + text::dec(id as nat) + " is applied twice"@,
            FaultV::CheckpointHeight { upto, height } => "checkpoint upto "@ + text::dec(upto as nat) + " must be exactly its block height "@ + text::dec(height as nat) + " minus one"@,
            FaultV::ConsentOnNonRestore { height } => "block "@ + text::dec(height as nat) + " carries a consent on a non-restore membership change"@,
            FaultV::CountedTwice { height, member } => "block "@ + text::dec(height as nat) + " counts "@ + member + " twice - consent plus a roster signature"@,
            FaultV::RestoresUnknown { height } => "block "@ + text::dec(height as nat) + " restores an unknown member"@,
            FaultV::ConsentInvalid { height, member } => "block "@ + text::dec(height as nat) + " carries a consent that does not verify for "@ + member,
            FaultV::BelowThreshold { height, have, need } => "block "@ + text::dec(height as nat) + " has "@ + text::dec(have as nat) + " valid approvals, threshold is "@ + text::dec(need as nat),
            FaultV::JoinedUnsupported => "membership op `joined` is not supported: seats are fixed at founding"@,
            FaultV::UnknownSeat { member } => "cannot restore unknown member "@ + member,
            FaultV::SeatKeyMoved { member } => "a Restored block must keep "@ + member + "'s anchored identity key"@,
            FaultV::BelowCoverage { upto, floor } => "checkpoint upto "@ + text::dec(upto as nat) + " lies below the blob coverage "@ + text::dec(floor as nat),
            FaultV::StateMismatch { upto } => "checkpoint at upto "@ + text::dec(upto as nat) + " does not match this chain's own projection"@,
            FaultV::EmptyChain => "empty chain"@,
            FaultV::NoGenesis => "chain does not start with a genesis"@,
            FaultV::EmptySuffix => "empty suffix chain"@,
            FaultV::NoCheckpoint => "suffix chain does not start with a checkpoint"@,
            FaultV::BlobCoverage => "checkpoint blob does not cover the anchored upto"@,
            FaultV::BlobHash => "checkpoint blob does not match the signed state hash"@,
            FaultV::AnchorHeight => "checkpoint upto must be exactly the anchor height minus one"@,
            FaultV::FoundingMismatch => "checkpoint founding table does not recompute to the republic id"@,
            FaultV::RuleOutOfRange => "checkpoint roster/threshold out of range"@,
            FaultV::FoundingSize => "checkpoint founding table size does not match n"@,
            FaultV::RosterNotAnchored { member } => "checkpoint roster member "@ + member + " is not anchored in the founding table"@,
            FaultV::AnchorThreshold { have, need } => "checkpoint anchor has "@ + text::dec(have as nat) + " valid approvals, threshold is "@ + text::dec(need as nat),
            FaultV::NoConstitution => "the chain does not root on a genesis constitution"@,
            FaultV::WrongRepublic => "the chain does not match the expected republic"@,
        }
    }
}

impl Fault {
    /// The refusal in words.
    pub fn text(&self) -> (r: String)
        ensures
            r@ == self.deep_view().text(),
    {
        match self {
            Fault::NotHeightZero => "genesis is not at height 0".to_owned(),
            Fault::NotZeroRoot => "genesis prev is not the zero root".to_owned(),
            Fault::NotGenesis => "block 0 is not a genesis".to_owned(),
            Fault::ThresholdOutOfRange => "genesis threshold is out of range".to_owned(),
            Fault::RosterSize => "genesis roster size does not match n".to_owned(),
            Fault::IdMismatch => "genesis republic id does not match its content".to_owned(),
            Fault::NotFullySigned => "genesis is not fully signed by every member".to_owned(),
            Fault::HeightGap { height, head } => {
                let mut out: String = "block height ".to_owned();
                append_number(&mut out, *height);
                out.append(" does not follow ");
                append_number(&mut out, *head);
                out
            },
            Fault::BrokenLink { height } => {
                let mut out: String = "block ".to_owned();
                append_number(&mut out, *height);
                out.append(" does not link to its predecessor");
                out
            },
            Fault::LateGenesis => "a genesis cannot appear after height 0".to_owned(),
            Fault::AppliedTwice { id } => {
                let mut out: String = "proposal ".to_owned();
                append_number(&mut out, *id);
                out.append(" is applied twice");
                out
            },
            Fault::CheckpointHeight { upto, height } => {
                let mut out: String = "checkpoint upto ".to_owned();
                append_number(&mut out, *upto);
                out.append(" must be exactly its block height ");
                append_number(&mut out, *height);
                out.append(" minus one");
                out
            },
            Fault::ConsentOnNonRestore { height } => {
                let mut out: String = "block ".to_owned();
                append_number(&mut out, *height);
                out.append(" carries a consent on a non-restore membership change");
                out
            },
            Fault::CountedTwice { height, member } => {
                let mut out: String = "block ".to_owned();
                append_number(&mut out, *height);
                out.append(" counts ");
                out.append(member.as_str());
                out.append(" twice - consent plus a roster signature");
                out
            },
            Fault::RestoresUnknown { height } => {
                let mut out: String = "block ".to_owned();
                append_number(&mut out, *height);
                out.append(" restores an unknown member");
                out
            },
            Fault::ConsentInvalid { height, member } => {
                let mut out: String = "block ".to_owned();
                append_number(&mut out, *height);
                out.append(" carries a consent that does not verify for ");
                out.append(member.as_str());
                out
            },
            Fault::BelowThreshold { height, have, need } => {
                let mut out: String = "block ".to_owned();
                append_number(&mut out, *height);
                out.append(" has ");
                append_number(&mut out, *have);
                out.append(" valid approvals, threshold is ");
                append_number(&mut out, *need as u64);
                out
            },
            Fault::JoinedUnsupported => "membership op `joined` is not supported: seats are fixed at founding".to_owned(),
            Fault::UnknownSeat { member } => {
                let mut out: String = "cannot restore unknown member ".to_owned();
                out.append(member.as_str());
                out
            },
            Fault::SeatKeyMoved { member } => {
                let mut out: String = "a Restored block must keep ".to_owned();
                out.append(member.as_str());
                out.append("'s anchored identity key");
                out
            },
            Fault::BelowCoverage { upto, floor } => {
                let mut out: String = "checkpoint upto ".to_owned();
                append_number(&mut out, *upto);
                out.append(" lies below the blob coverage ");
                append_number(&mut out, *floor);
                out
            },
            Fault::StateMismatch { upto } => {
                let mut out: String = "checkpoint at upto ".to_owned();
                append_number(&mut out, *upto);
                out.append(" does not match this chain's own projection");
                out
            },
            Fault::EmptyChain => "empty chain".to_owned(),
            Fault::NoGenesis => "chain does not start with a genesis".to_owned(),
            Fault::EmptySuffix => "empty suffix chain".to_owned(),
            Fault::NoCheckpoint => "suffix chain does not start with a checkpoint".to_owned(),
            Fault::BlobCoverage => "checkpoint blob does not cover the anchored upto".to_owned(),
            Fault::BlobHash => "checkpoint blob does not match the signed state hash".to_owned(),
            Fault::AnchorHeight => "checkpoint upto must be exactly the anchor height minus one".to_owned(),
            Fault::FoundingMismatch => "checkpoint founding table does not recompute to the republic id".to_owned(),
            Fault::RuleOutOfRange => "checkpoint roster/threshold out of range".to_owned(),
            Fault::FoundingSize => "checkpoint founding table size does not match n".to_owned(),
            Fault::RosterNotAnchored { member } => {
                let mut out: String = "checkpoint roster member ".to_owned();
                out.append(member.as_str());
                out.append(" is not anchored in the founding table");
                out
            },
            Fault::AnchorThreshold { have, need } => {
                let mut out: String = "checkpoint anchor has ".to_owned();
                append_number(&mut out, *have);
                out.append(" valid approvals, threshold is ");
                append_number(&mut out, *need as u64);
                out
            },
            Fault::NoConstitution => "the chain does not root on a genesis constitution".to_owned(),
            Fault::WrongRepublic => "the chain does not match the expected republic".to_owned(),
        }
    }
}

} // verus!
