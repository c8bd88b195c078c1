//! A single chat room: connections pick a name, then every line they send goes to everyone
//! else in the room; arrivals and departures are announced.
use vstd::prelude::*;

use crate::text::{all_alphanumeric, alphanumeric, trim, trimmed};

verus! {

/// The greeting sent to every new connection.
pub open spec fn welcome_text() -> Seq<char> {
    "Welcome to budgetchat! What is your name?\n"@
}

/// The answer to a name that is not acceptable.
pub open spec fn invalid_name_text() -> Seq<char> {
    "Please pick a valid name\n"@
}

/// Announces that `name` joined.
pub open spec fn joined_text(name: Seq<char>) -> Seq<char> {
    "* "@ + name + " joined the chat\n"@
}

/// Announces that `name` left.
pub open spec fn left_text(name: Seq<char>) -> Seq<char> {
    "* "@ + name + " left the chat\n"@
}

/// A chat line of `name`.
pub open spec fn chat_text(name: Seq<char>, msg: Seq<char>) -> Seq<char> {
    "["@ + name + "] "@ + msg + "\n"@
}

/// `names` with `", "` between each two.
pub open spec fn join_names(names: Seq<Seq<char>>) -> Seq<char>
    decreases names.len(),
{
    if names.len() == 0 {
        Seq::<char>::empty()
    } else if names.len() == 1 {
        names[0]
    } else {
        join_names(names.drop_last()) + ", "@ + names.last()
    }
}

/// Tells a new member who is in the room.
pub open spec fn online_text(names: Seq<Seq<char>>) -> Seq<char> {
    "* Users online: "@ + join_names(names) + "\n"@
}

/// A name is acceptable: not empty, and alphanumeric throughout.
pub open spec fn valid_name(name: Seq<char>) -> bool {
    name.len() > 0 && forall|i: int| 0 <= i < name.len() ==> #[trigger] alphanumeric(name[i])
}

/// A text for a connection.
pub struct Delivery {
    pub to: u64,
    pub text: String,
}

/// A delivery as plain values.
pub open spec fn delivery_view(d: Delivery) -> (u64, Seq<char>) {
    (d.to, d.text@)
}

/// Deliveries as plain values.
pub open spec fn deliveries_view(ds: Seq<Delivery>) -> Seq<(u64, Seq<char>)> {
    ds.map_values(|d: Delivery| delivery_view(d))
}

/// `text` for each of `members` other than `skip`, in order.
pub open spec fn notify(members: Seq<u64>, skip: Option<u64>, text: Seq<char>) -> Seq<(u64, Seq<char>)>
    decreases members.len(),
{
    if members.len() == 0 {
        Seq::empty()
    } else {
        let rest = notify(members.drop_last(), skip, text);
        if skip == Some(members.last()) {
            rest
        } else {
            rest.push((members.last(), text))
        }
    }
}

/// `members` without `client`.
pub open spec fn without_member(members: Seq<u64>, client: u64) -> Seq<u64>
    decreases members.len(),
{
    if members.len() == 0 {
        members
    } else {
        let rest = without_member(members.drop_last(), client);
        if members.last() == client {
            rest
        } else {
            rest.push(members.last())
        }
    }
}

/// Where `name` first occurs in `names`.
pub open spec fn first_index(names: Seq<Seq<char>>, name: Seq<char>) -> Option<int>
    decreases names.len(),
{
    if names.len() == 0 {
        None
    } else if names[0] == name {
        Some(0)
    } else {
        match first_index(names.drop_first(), name) {
            Some(i) => Some(i + 1),
            None => None,
        }
    }
}

/// `names` after the first `name` is taken out, the last name moving into its place.
pub open spec fn remove_name(names: Seq<Seq<char>>, name: Seq<char>) -> Seq<Seq<char>> {
    match first_index(names, name) {
        Some(i) => names.update(i, names.last()).drop_last(),
        None => names,
    }
}

/// Where a connection stands.
pub enum Session {
    /// Connected, asked for a name.
    AwaitingName,
    /// In the room under `name`.
    Joined { name: String },
}

/// The room: the connections in it, and the names in use, both in order of arrival
/// (names may move when someone leaves).
pub struct Room {
    pub members: Vec<u64>,
    pub names: Vec<String>,
}

/// What the room does after a line: texts to deliver, in order, and whether the sending
/// connection is to be closed.
pub struct Reaction {
    pub deliveries: Vec<Delivery>,
    pub close: bool,
}

/// The names as plain values.
pub open spec fn names_view(names: Seq<String>) -> Seq<Seq<char>> {
    names.map_values(|s: String| s@)
}

/// Builds `a + b + c`.
fn concat3(a: &str, b: &str, c: &str) -> (res: String)
    ensures
        res@ == a@ + b@ + c@,
{
    let mut s = String::from_str(a);
    s.append(b);
    s.append(c);
    s
}

/// The greeting sent to every new connection.
pub fn welcome() -> (res: String)
    ensures
        res@ == welcome_text(),
{
    String::from_str("Welcome to budgetchat! What is your name?\n")
}

/// Deliveries of `text` to each of `members` other than `skip`.
fn notify_exec(members: &Vec<u64>, skip: Option<u64>, text: &String) -> (res: Vec<Delivery>)
    ensures
        deliveries_view(res@) == notify(members@, skip, text@),
{
    let mut out: Vec<Delivery> = Vec::new();
    let mut i: usize = 0;
    while i < members.len()
        invariant
            i <= members.len(),
            deliveries_view(out@) == notify(members@.take(i as int), skip, text@),
        decreases members.len() - i,
    {
        let ghost t = members@.take(i + 1);
        assert(t.drop_last() =~= members@.take(i as int));
        assert(t.last() == members@[i as int]);
        let m = members[i];
        let send = match skip {
            Some(s) => s != m,
            None => true,
        };
        if send {
            let ghost before = out@;
            out.push(Delivery { to: m, text: text.clone() });
            assert(deliveries_view(out@) =~= deliveries_view(before).push((m, text@)));
        }
        i = i + 1;
    }
    assert(members@.take(members.len() as int) =~= members@);
    out
}

/// `names` with `", "` between each two.
fn join_names_exec(names: &Vec<String>) -> (res: String)
    ensures
        res@ == join_names(names_view(names@)),
{
    let mut s = String::new();
    let mut i: usize = 0;
    while i < names.len()
        invariant
            i <= names.len(),
            s@ == join_names(names_view(names@).take(i as int)),
        decreases names.len() - i,
    {
        let ghost t = names_view(names@).take(i + 1);
        assert(t.drop_last() =~= names_view(names@).take(i as int));
        assert(t.last() == names@[i as int]@);
        if i == 0 {
            s.append(names[i].as_str());
            assert(t.len() == 1);
            assert(s@ =~= t[0]);
        } else {
            s.append(", ");
            s.append(names[i].as_str());
        }
        i = i + 1;
    }
    assert(names_view(names@).take(names.len() as int) =~= names_view(names@));
    s
}

impl Room {
    /// An empty room.
    pub fn new() -> (res: Room)
        ensures
            res.members@ == Seq::<u64>::empty(),
            res.names@ == Seq::<String>::empty(),
    {
        Room { members: Vec::new(), names: Vec::new() }
    }

    /// Connection `client`, in state `session`, sent `line`.
    ///
    /// Awaiting a name, the trimmed line is the name asked for. An invalid name is answered
    /// and the connection closed. A valid one is announced to everyone in the room, the new
    /// member is told the names of those present, and joins.
    ///
    /// In the room, a trimmed line that is not empty goes to every other member.
    pub fn on_line(&mut self, client: u64, session: &mut Session, line: &str) -> (res: Reaction)
        ensures
            match *old(session) {
                Session::AwaitingName => {
                    let name = trim(line@);
                    if valid_name(name) {
                        &&& deliveries_view(res.deliveries@) == notify(
                            old(self).members@,
                            None,
                            joined_text(name),
                        ).push((client, online_text(names_view(old(self).names@))))
                        &&& !res.close
                        &&& final(self).members@ == old(self).members@.push(client)
                        &&& names_view(final(self).names@) == names_view(old(self).names@).push(
                            name,
                        )
                        &&& *final(session) matches Session::Joined { name: n } && n@ == name
                    } else {
                        &&& deliveries_view(res.deliveries@) == seq![(client, invalid_name_text())]
                        &&& res.close
                        &&& final(self).members@ == old(self).members@
                        &&& final(self).names@ == old(self).names@
                        &&& *final(session) == *old(session)
                    }
                },
                Session::Joined { name } => {
                    let msg = trim(line@);
                    &&& deliveries_view(res.deliveries@) == if msg.len() == 0 {
                        Seq::empty()
                    } else {
                        notify(old(self).members@, Some(client), chat_text(name@, msg))
                    }
                    &&& !res.close
                    &&& final(self).members@ == old(self).members@
                    &&& final(self).names@ == old(self).names@
                    &&& *final(session) == *old(session)
                },
            },
    {
        match session {
            Session::AwaitingName => {
                let name = trimmed(line);
                if name.as_str().is_empty() || !all_alphanumeric(name.as_str()) {
                    let mut d: Vec<Delivery> = Vec::new();
                    d.push(
                        Delivery { to: client, text: String::from_str("Please pick a valid name\n") },
                    );
                    assert(deliveries_view(d@) =~= seq![(client, invalid_name_text())]);
                    return Reaction { deliveries: d, close: true };
                }
                let joined = concat3("* ", name.as_str(), " joined the chat\n");
                let mut d = notify_exec(&self.members, None, &joined);
                self.members.push(client);
                let listed = join_names_exec(&self.names);
                let online = concat3("* Users online: ", listed.as_str(), "\n");
                let ghost before = d@;
                d.push(Delivery { to: client, text: online });
                assert(deliveries_view(d@) =~= deliveries_view(before).push(
                    (client, online_text(names_view(old(self).names@))),
                ));
                let ghost old_names = self.names@;
                self.names.push(name.clone());
                assert(names_view(self.names@) =~= names_view(old_names).push(name@));
                *session = Session::Joined { name };
                Reaction { deliveries: d, close: false }
            },
            Session::Joined { name } => {
                let msg = trimmed(line);
                if msg.as_str().is_empty() {
                    let d: Vec<Delivery> = Vec::new();
                    assert(deliveries_view(d@) =~= Seq::<(u64, Seq<char>)>::empty());
                    return Reaction { deliveries: d, close: false };
                }
                let mut text = String::from_str("[");
                text.append(name.as_str());
                text.append("] ");
                text.append(msg.as_str());
                text.append("\n");
                let d = notify_exec(&self.members, Some(client), &text);
                Reaction { deliveries: d, close: false }
            },
        }
    }

    /// Connection `client`, in state `session`, went away. It leaves the room; if it had
    /// joined, the remaining members are told and its name is given up.
    pub fn on_disconnect(&mut self, client: u64, session: &Session) -> (res: Vec<Delivery>)
        ensures
            final(self).members@ == without_member(old(self).members@, client),
            match *session {
                Session::AwaitingName => {
                    &&& deliveries_view(res@) == Seq::<(u64, Seq<char>)>::empty()
                    &&& final(self).names@ == old(self).names@
                },
                Session::Joined { name } => {
                    &&& deliveries_view(res@) == notify(
                        without_member(old(self).members@, client),
                        None,
                        left_text(name@),
                    )
                    &&& names_view(final(self).names@) == remove_name(
                        names_view(old(self).names@),
                        name@,
                    )
                },
            },
    {
        self.remove_member(client);
        match session {
            Session::AwaitingName => {
                let d: Vec<Delivery> = Vec::new();
                assert(deliveries_view(d@) =~= Seq::<(u64, Seq<char>)>::empty());
                d
            },
            Session::Joined { name } => {
                let text = concat3("* ", name.as_str(), " left the chat\n");
                let d = notify_exec(&self.members, None, &text);
                self.remove_first_name(name);
                d
            },
        }
    }

    /// Takes `client` out of the members.
    fn remove_member(&mut self, client: u64)
        ensures
            final(self).members@ == without_member(old(self).members@, client),
            final(self).names@ == old(self).names@,
    {
        let mut kept: Vec<u64> = Vec::new();
        let mut i: usize = 0;
        while i < self.members.len()
            invariant
                i <= self.members.len(),
                self.members@ == old(self).members@,
                self.names@ == old(self).names@,
                kept@ == without_member(self.members@.take(i as int), client),
            decreases self.members.len() - i,
        {
            let ghost t = self.members@.take(i + 1);
            assert(t.drop_last() =~= self.members@.take(i as int));
            assert(t.last() == self.members@[i as int]);
            if self.members[i] != client {
                kept.push(self.members[i]);
            }
            i = i + 1;
        }
        assert(self.members@.take(self.members.len() as int) =~= self.members@);
        self.members = kept;
    }

    /// Gives up the first use of `name`: the last name moves into its place.
    fn remove_first_name(&mut self, name: &String)
        ensures
            names_view(final(self).names@) == remove_name(names_view(old(self).names@), name@),
            final(self).members@ == old(self).members@,
    {
        let ghost nv = names_view(self.names@);
        let mut i: usize = 0;
        assert(nv.skip(0) =~= nv);
        while i < self.names.len()
            invariant
                i <= self.names.len(),
                self.names@ == old(self).names@,
                self.members@ == old(self).members@,
                nv == names_view(self.names@),
                first_index(nv, name@) == match first_index(nv.skip(i as int), name@) {
                    Some(j) => Some(j + i),
                    None => None,
                },
            decreases self.names.len() - i,
        {
            assert(nv.skip(i as int).drop_first() =~= nv.skip(i + 1));
            assert(nv.skip(i as int)[0] == self.names@[i as int]@);
            if self.names[i] == *name {
                self.names.swap_remove(i);
                assert(names_view(self.names@) =~= nv.update(i as int, nv.last()).drop_last());
                return;
            }
            i = i + 1;
        }
        assert(nv.skip(i as int) =~= Seq::<Seq<char>>::empty());
    }
}

proof fn lemma_first_index_facts(names: Seq<Seq<char>>, name: Seq<char>)
    ensures
        first_index(names, name) matches Some(i) ==> 0 <= i < names.len() && names[i] == name,
        names.contains(name) ==> first_index(names, name) is Some,
    decreases names.len(),
{
    if names.len() > 0 && names[0] != name {
        lemma_first_index_facts(names.drop_first(), name);
        if names.contains(name) {
            let j = choose|j: int| 0 <= j < names.len() && names[j] == name;
            assert(names.drop_first()[j - 1] == name);
        }
        if let Some(i) = first_index(names.drop_first(), name) {
            assert(names[i + 1] == names.drop_first()[i]);
        }
    }
}

proof fn lemma_without_absent(members: Seq<u64>, client: u64)
    requires
        !members.contains(client),
    ensures
        without_member(members, client) == members,
    decreases members.len(),
{
    if members.len() > 0 {
        let init = members.drop_last();
        assert(!init.contains(client)) by {
            if init.contains(client) {
                let j = choose|j: int| 0 <= j < init.len() && init[j] == client;
                assert(members[j] == client);
            }
        }
        lemma_without_absent(init, client);
        assert(members.last() == members[members.len() - 1]);
        assert(init.push(members.last()) =~= members);
    }
}

/// Joining and then leaving puts the room back as it was: the members, and the names in
/// their order.
pub proof fn lemma_join_then_leave(
    members: Seq<u64>,
    names: Seq<Seq<char>>,
    client: u64,
    name: Seq<char>,
)
    requires
        !members.contains(client),
    ensures
        without_member(members.push(client), client) == members,
        remove_name(names.push(name), name) == names,
{
    let m2 = members.push(client);
    assert(m2.drop_last() =~= members);
    lemma_without_absent(members, client);
    let n2 = names.push(name);
    assert(n2[names.len() as int] == name);
    assert(n2.contains(name));
    lemma_first_index_facts(n2, name);
    let i = first_index(n2, name)->0;
    assert(n2.update(i, n2.last()).drop_last() =~= names);
}

/// A line is delivered to every member but its sender, once each and to no one else.
pub proof fn lemma_notify_reaches_others(members: Seq<u64>, sender: u64, text: Seq<char>)
    ensures
        forall|k: int|
            0 <= k < notify(members, Some(sender), text).len() ==> {
                let d = #[trigger] notify(members, Some(sender), text)[k];
                &&& d.0 != sender
                &&& d.1 == text
                &&& members.contains(d.0)
            },
        forall|m: u64|
            #[trigger] members.contains(m) && m != sender ==> exists|k: int|
                0 <= k < notify(members, Some(sender), text).len() && #[trigger] notify(
                    members,
                    Some(sender),
                    text,
                )[k].0 == m,
    decreases members.len(),
{
    if members.len() > 0 {
        let init = members.drop_last();
        lemma_notify_reaches_others(init, sender, text);
        let rest = notify(init, Some(sender), text);
        let all = notify(members, Some(sender), text);
        assert forall|k: int| 0 <= k < all.len() implies ({
            let d = #[trigger] all[k];
            &&& d.0 != sender
            &&& d.1 == text
            &&& members.contains(d.0)
        }) by {
            if k < rest.len() {
                assert(all[k] == rest[k]);
                let j = choose|j: int| 0 <= j < init.len() && init[j] == rest[k].0;
                assert(members[j] == init[j]);
            } else {
                assert(members[members.len() - 1] == members.last());
            }
        }
        assert forall|m: u64| #[trigger] members.contains(m) && m != sender implies exists|k: int|
            0 <= k < all.len() && #[trigger] all[k].0 == m by {
            let j = choose|j: int| 0 <= j < members.len() && members[j] == m;
            if j < members.len() - 1 {
                assert(init[j] == m);
                assert(init.contains(m));
                let k = choose|k: int| 0 <= k < rest.len() && #[trigger] rest[k].0 == m;
                assert(all[k] == rest[k]);
            } else {
                assert(all[rest.len() as int].0 == m);
            }
        }
    }
}

} // verus!
