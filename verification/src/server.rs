//! The server-side fleet manager.
//!
//! One `Server` instance corresponds to one connected game server. It owns
//! the per-player wingman registries, drives the command interpreter on
//! public chat, and hands out the shutdown flags of wingmen to spawn. The
//! network session around it relays the replies and runs the spawned
//! wingman loops.

use vstd::prelude::*;
use std::collections::HashMap;
use crate::commands::{
    BadCommand, Command, ControlTower, Interpretation, Response, ResponseKind, call_off_text,
    already_text, help_texts, interpret, no_wings_text, starts_with_spec, texts_of, too_many_text,
    unknown_text, version_texts, wings_ok_text,
};
use crate::wing::Flag;

verus! {

broadcast use vstd::std_specs::hash::group_hash_axioms;

/// What the fleet manager asks its caller to do after a chat event.
pub struct ChatOutcome {
    /// Lines to relay back to chat, in order, one message each, paced.
    pub replies: Vec<String>,
    /// Fresh shutdown flags, one per wingman to spawn for the player.
    pub to_spawn: Vec<Flag>,
}

/// A connected server's fleet state: wingman registries per player, and
/// the control tower that validates commands.
pub struct Server {
    /// The control tower that handles wingmen commands and responses.
    pub tower: ControlTower,
    /// Players to associated wingmen control flags.
    pub wingmen: HashMap<u16, Vec<Flag>>,
    /// True to announce ourselves to new players, else false.
    pub announce: bool,
}

/// The chat line announcing ground control to a newly joined player.
pub open spec fn announce_text(name: Seq<char>) -> Seq<char> {
    "Ground Control, standing by for "@ + name + "! Use --gc-help for help."@
}

/// Everything a handled chat message owes: the registry changes and the
/// reply lines that the interpreter's decision calls for, and no change at
/// all when the message is not addressed to ground control.
pub open spec fn chat_effect_ok(
    pre: Server,
    post: Server,
    id: u16,
    name: Seq<char>,
    msg: Seq<char>,
    r: ChatOutcome,
) -> bool {
    let count = pre.wings_of(id) as u8;
    if !starts_with_spec(msg, "--gc"@) {
        post == pre && r.replies@.len() == 0 && r.to_spawn@.len() == 0
    } else {
        match interpret(msg, count, pre.tower.max_wings) {
            Interpretation::Help => post == pre && texts_of(r.replies@) == help_texts()
                && r.to_spawn@.len() == 0,
            Interpretation::Version => post == pre && texts_of(r.replies@) == version_texts()
                && r.to_spawn@.len() == 0,
            Interpretation::AlreadyWinged => post == pre
                && texts_of(r.replies@) == seq![already_text(name, count)]
                && r.to_spawn@.len() == 0,
            Interpretation::TooMany => post == pre
                && texts_of(r.replies@) == seq![too_many_text(name, pre.tower.max_wings)]
                && r.to_spawn@.len() == 0,
            Interpretation::NoWings => post == pre
                && texts_of(r.replies@) == seq![no_wings_text(name)]
                && r.to_spawn@.len() == 0,
            Interpretation::Unknown => post == pre
                && texts_of(r.replies@) == seq![unknown_text(msg)]
                && r.to_spawn@.len() == 0,
            Interpretation::SetWings(n) => post.wings_of(id) == n
                && (forall|o: u16| o != id ==> post.wings_of(o) == pre.wings_of(o))
                && texts_of(r.replies@) == seq![wings_ok_text(name, n)]
                && r.to_spawn@.len() == n,
            Interpretation::CallOff => post.wings_of(id) == 0
                && (forall|o: u16| o != id ==> post.wings_of(o) == pre.wings_of(o))
                && texts_of(r.replies@) == seq![call_off_text(name)]
                && r.to_spawn@.len() == 0,
        }
    }
}

impl Server {
    /// Number of wingmen currently assigned to a player: the size of the
    /// player's flag list, zero without an entry.
    pub open spec fn wings_of(self, id: u16) -> int {
        if self.wingmen@.contains_key(id) {
            self.wingmen@[id]@.len() as int
        } else {
            0
        }
    }

    /// Registry invariant: an entry exists exactly for players with at
    /// least one wingman, and never over the allowed maximum.
    pub open spec fn wf(self) -> bool {
        forall|id: u16| self.wingmen@.contains_key(id)
            ==> 1 <= (#[trigger] self.wingmen@[id])@.len() <= self.tower.max_wings
    }

    /// A fleet manager for one connected server, with no wingmen yet. The
    /// maximum number of wingmen per player is capped at `max_wings`.
    ///
    /// If the server should announce itself to new players, set `announce`
    /// to `true`: it will tell them about the help command.
    pub fn new(max_wings: u8, announce: bool) -> (r: Server)
        ensures
            r.wf(),
            r.tower.max_wings == max_wings,
            r.announce == announce,
            forall|id: u16| r.wings_of(id) == 0,
    {
        Server {
            tower: ControlTower::new(max_wings),
            wingmen: HashMap::new(),
            announce,
        }
    }

    /// The wingman count currently assigned to a player.
    pub fn wingman_count(&self, id: u16) -> (r: u8)
        requires
            self.wf(),
        ensures
            r == self.wings_of(id),
    {
        match self.wingmen.get(&id) {
            None => 0,
            Some(flags) => flags.len() as u8,
        }
    }

    /// Register `n` wingmen for a player and hand out their shutdown
    /// flags, one per wingman to spawn.
    fn set_wings(&mut self, id: u16, n: u8) -> (r: Vec<Flag>)
        requires
            old(self).wf(),
            1 <= n <= old(self).tower.max_wings,
        ensures
            final(self).wf(),
            final(self).tower == old(self).tower,
            final(self).announce == old(self).announce,
            final(self).wings_of(id) == n,
            forall|o: u16| o != id ==> final(self).wings_of(o) == old(self).wings_of(o),
            r@.len() == n,
    {
        let mut flags: Vec<Flag> = Vec::new();
        let mut handed: Vec<Flag> = Vec::new();
        let mut i: u8 = 0;
        while i < n
            invariant
                0 <= i <= n,
                flags@.len() == i,
                handed@.len() == i,
            decreases n - i,
        {
            let flag = Flag::new();
            handed.push(flag.clone());
            flags.push(flag);
            i += 1;
        }
        self.wingmen.insert(id, flags);
        handed
    }

    /// Drop a player's registry entry and raise every discarded flag, so
    /// each wingman stops at its next check.
    fn clear_wings(&mut self, id: u16)
        requires
            old(self).wf(),
        ensures
            final(self).wf(),
            final(self).tower == old(self).tower,
            final(self).announce == old(self).announce,
            final(self).wings_of(id) == 0,
            forall|o: u16| o != id ==> final(self).wings_of(o) == old(self).wings_of(o),
    {
        match self.wingmen.remove(&id) {
            None => {},
            Some(flags) => {
                let mut i: usize = 0;
                while i < flags.len()
                    decreases flags@.len() - i,
                {
                    flags[i].raise();
                    i += 1;
                }
            },
        }
    }

    /// Handle a player's chat message: decide with the command interpreter,
    /// apply the fleet change, and return the reply lines together with
    /// the flags of wingmen the caller must spawn.
    pub fn handle_message(&mut self, id: u16, name: &str, message: &str) -> (r: ChatOutcome)
        requires
            old(self).wf(),
        ensures
            final(self).wf(),
            final(self).tower == old(self).tower,
            final(self).announce == old(self).announce,
            chat_effect_ok(*old(self), *final(self), id, name@, message@, r),
    {
        let count = self.wingman_count(id);
        let cmd = Command::new(message, name, count);
        match self.tower.parse_command(cmd) {
            // Not for us; do nothing.
            None => ChatOutcome { replies: Vec::new(), to_spawn: Vec::new() },
            // Bad command sent from the user: report it back.
            Some(Err(err)) => {
                let mut replies: Vec<String> = Vec::new();
                replies.push(err.to_text());
                proof {
                    assert(texts_of(replies@) =~= seq![crate::commands::bad_command_text(err)]);
                }
                ChatOutcome { replies, to_spawn: Vec::new() }
            },
            // Good command; take some action.
            Some(Ok(resp)) => {
                let mut to_spawn: Vec<Flag> = Vec::new();
                match resp.kind() {
                    Some(ResponseKind::SetWings { wings }) => {
                        to_spawn = self.set_wings(id, wings);
                    },
                    Some(ResponseKind::ClearWings) => {
                        self.clear_wings(id);
                    },
                    None => {},
                }
                ChatOutcome { replies: resp.msg(), to_spawn }
            },
        }
    }

    /// A player left: drop their wingmen silently, with no chat reply.
    pub fn handle_player_leave(&mut self, id: u16)
        requires
            old(self).wf(),
        ensures
            final(self).wf(),
            final(self).tower == old(self).tower,
            final(self).announce == old(self).announce,
            final(self).wings_of(id) == 0,
            forall|o: u16| o != id ==> final(self).wings_of(o) == old(self).wings_of(o),
    {
        self.clear_wings(id);
    }

    /// The standing-by line broadcast when a new player joins and
    /// announcements are enabled.
    pub fn announce_line(name: &str) -> (r: String)
        ensures
            r@ == announce_text(name@),
    {
        let mut s = String::from_str("Ground Control, standing by for ");
        s.append(name);
        s.append("! Use --gc-help for help.");
        proof {
            assert(s@ =~= announce_text(name@));
        }
        s
    }
}

} // verus!
