use vstd::prelude::*;
use crate::messages::{join2, join3, ClientMessage, PublishedMessage, ServerResponse};

verus! {

/// The abstract state of the registry: the connected clients and the
/// subscription relation between clients and topics.
pub ghost struct Registry {
    pub clients: Set<Seq<char>>,
    pub subscriptions: Set<(Seq<char>, Seq<char>)>,
}

impl Registry {
    /// Topics that each connected client follows.
    pub open spec fn client_topics(self) -> Map<Seq<char>, Set<Seq<char>>> {
        Map::new(
            |c: Seq<char>| self.clients.contains(c),
            |c: Seq<char>| Set::new(|t: Seq<char>| self.subscriptions.contains((c, t))),
        )
    }

    /// The clients subscribed to `t`.
    pub open spec fn subscribers(self, t: Seq<char>) -> Set<Seq<char>> {
        Set::new(|c: Seq<char>| self.subscriptions.contains((c, t)))
    }

    /// Whether some client follows `t`.
    pub open spec fn has_topic(self, t: Seq<char>) -> bool {
        exists|c: Seq<char>| self.subscriptions.contains((c, t))
    }

    /// Subscribers of each topic that has any.
    pub open spec fn topic_subscribers(self) -> Map<Seq<char>, Set<Seq<char>>> {
        Map::new(|t: Seq<char>| self.has_topic(t), |t: Seq<char>| self.subscribers(t))
    }

    /// `c` joins the connected clients.
    pub open spec fn add_client(self, c: Seq<char>) -> Registry {
        Registry { clients: self.clients.insert(c), ..self }
    }

    /// `c` leaves, and with it every subscription of `c`.
    pub open spec fn remove_client(self, c: Seq<char>) -> Registry {
        Registry {
            clients: self.clients.remove(c),
            subscriptions: self.subscriptions.filter(
                |p: (Seq<char>, Seq<char>)| p.0 != c,
            ),
        }
    }

    /// Subscribing has an effect only for a connected client.
    pub open spec fn subscribe(self, c: Seq<char>, t: Seq<char>) -> Registry {
        if self.clients.contains(c) {
            Registry { subscriptions: self.subscriptions.insert((c, t)), ..self }
        } else {
            self
        }
    }

    /// Unsubscribing has an effect only for a connected client.
    pub open spec fn unsubscribe(self, c: Seq<char>, t: Seq<char>) -> Registry {
        if self.clients.contains(c) {
            Registry { subscriptions: self.subscriptions.remove((c, t)), ..self }
        } else {
            self
        }
    }
}

/// The reason given when `c` is already registered.
pub open spec fn duplicate_client_text(c: Seq<char>) -> Seq<char> {
    "Client "@ + c + " already exists!"@
}

/// The reason given when a subscriber is not registered.
pub open spec fn unknown_subscriber_text(c: Seq<char>) -> Seq<char> {
    "Did not find channels for client "@ + c
}

/// The reason given when an unsubscriber is not registered.
pub open spec fn unknown_unsubscriber_text(c: Seq<char>) -> Seq<char> {
    "Did not find channel set for "@ + c
}

/// The reason given when nobody follows topic `t`.
pub open spec fn topic_not_found_text(t: Seq<char>) -> Seq<char> {
    "Channel '"@ + t + "' not found!"@
}

/// A published message together with the clients it is to be handed to.
pub struct Delivery {
    pub message: PublishedMessage,
    pub recipients: Vec<String>,
}

impl Delivery {
    /// `sender` published `content` to topic `t`, and the recipients are the
    /// clients in `to`, each once.
    pub open spec fn carries(
        &self,
        sender: Seq<char>,
        t: Seq<char>,
        content: Seq<char>,
        to: Set<Seq<char>>,
    ) -> bool {
        &&& self.message.sender@ == sender
        &&& self.message.channel_name@ == t
        &&& self.message.content@ == content
        &&& names_of(self.recipients@).no_duplicates()
        &&& names_of(self.recipients@).to_set() == to
    }
}

pub open spec fn name_view(s: String) -> Seq<char> {
    s@
}

/// The (client, topic) pairs held in a list.
pub open spec fn pairs_of(v: Seq<(String, String)>) -> Seq<(Seq<char>, Seq<char>)> {
    v.map_values(|p: (String, String)| pair_view(p))
}

/// The names held in a list of strings.
pub open spec fn names_of(v: Seq<String>) -> Seq<Seq<char>> {
    v.map_values(|s: String| name_view(s))
}

pub open spec fn pair_view(p: (String, String)) -> (Seq<char>, Seq<char>) {
    (p.0@, p.1@)
}

/// The registry of clients and subscriptions. Both directions of the
/// subscription relation (client to topics, topic to clients) are read off
/// one list of pairs, so they cannot disagree.
pub struct Dispatcher {
    clients: Vec<String>,
    subscriptions: Vec<(String, String)>,
}

impl View for Dispatcher {
    type V = Registry;

    closed spec fn view(&self) -> Registry {
        Registry {
            clients: self.client_names().to_set(),
            subscriptions: self.pairs().to_set(),
        }
    }
}

impl Dispatcher {
    pub closed spec fn client_names(&self) -> Seq<Seq<char>> {
        names_of(self.clients@)
    }

    pub closed spec fn pairs(&self) -> Seq<(Seq<char>, Seq<char>)> {
        pairs_of(self.subscriptions@)
    }

    /// Client names are unique, subscriptions are unique, and every
    /// subscription belongs to a connected client.
    pub closed spec fn wf(&self) -> bool {
        &&& self.client_names().no_duplicates()
        &&& self.pairs().no_duplicates()
        &&& forall|i: int|
            0 <= i < self.pairs().len() ==> self.client_names().contains(
                #[trigger] self.pairs()[i].0,
            )
    }

    /// An empty registry.
    pub fn new() -> (r: Self)
        ensures
            r.wf(),
            r@.clients == Set::<Seq<char>>::empty(),
            r@.subscriptions == Set::<(Seq<char>, Seq<char>)>::empty(),
    {
        let r = Dispatcher { clients: Vec::new(), subscriptions: Vec::new() };
        assert(r@.clients =~= Set::<Seq<char>>::empty());
        assert(r@.subscriptions =~= Set::<(Seq<char>, Seq<char>)>::empty());
        r
    }

    fn find_client(&self, name: &String) -> (r: Option<usize>)
        ensures
            match r {
                Some(i) => i < self.clients.len() && self.client_names()[i as int] == name@,
                None => !self.client_names().contains(name@),
            },
    {
        let mut i: usize = 0;
        while i < self.clients.len()
            invariant
                i <= self.clients.len(),
                forall|j: int| 0 <= j < i ==> self.client_names()[j] != name@,
            decreases self.clients.len() - i,
        {
            if self.clients[i] == *name {
                return Some(i);
            }
            i = i + 1;
        }
        None
    }
    fn find_subscription(&self, client: &String, topic: &String) -> (r: Option<usize>)
        ensures
            match r {
                Some(i) => i < self.subscriptions.len() && self.pairs()[i as int] == (
                client@,
                topic@,
                ),
                None => !self.pairs().contains((client@, topic@)),
            },
    {
        let mut i: usize = 0;
        while i < self.subscriptions.len()
            invariant
                i <= self.subscriptions.len(),
                forall|j: int| 0 <= j < i ==> self.pairs()[j] != (client@, topic@),
            decreases self.subscriptions.len() - i,
        {
            if self.subscriptions[i].0 == *client && self.subscriptions[i].1 == *topic {
                return Some(i);
            }
            i = i + 1;
        }
        None
    }

    /// Register a new client. Fails, leaving the registry as it was, when the
    /// name is taken.
    pub fn add_client(&mut self, client: &str) -> (r: Result<(), String>)
        requires
            old(self).wf(),
        ensures
            final(self).wf(),
            final(self)@ == old(self)@.add_client(client@),
            r is Ok <==> !old(self)@.clients.contains(client@),
            match r {
                Err(e) => e@ == duplicate_client_text(client@),
                Ok(_) => true,
            },
    {
        let name = client.to_owned();
        match self.find_client(&name) {
            Some(_) => {
                proof {
                    assert(self@.clients.insert(client@) =~= self@.clients);
                }
                Err(join3("Client ", client, " already exists!"))
            },
            None => {
                let ghost old_names = self.client_names();
                self.clients.push(name);
                proof {
                    assert(self.client_names() =~= old_names.push(client@));
                    assert(self.pairs() =~= old(self).pairs());
                    assert forall|i: int| 0 <= i < self.pairs().len() implies self.client_names().contains(
                        #[trigger] self.pairs()[i].0,
                    ) by {
                        let k = choose|k: int| 0 <= k < old_names.len() && old_names[k] == self.pairs()[i].0;
                        assert(self.client_names()[k] == old_names[k]);
                    }
                    assert(self@.clients =~= old(self)@.clients.insert(client@)) by {
                        assert(self.client_names()[old_names.len() as int] == client@);
                        assert forall|x: Seq<char>| old_names.contains(x) implies self.client_names().contains(x) by {
                            let k = choose|k: int| 0 <= k < old_names.len() && old_names[k] == x;
                            assert(self.client_names()[k] == x);
                        }
                    }
                }
                Ok(())
            },
        }
    }
    /// The clients subscribed to `topic`, each once.
    pub fn subscribers_of(&self, topic: &String) -> (r: Vec<String>)
        requires
            self.wf(),
        ensures
            names_of(r@).no_duplicates(),
            names_of(r@).to_set() == self@.subscribers(topic@),
            r.len() == self@.subscribers(topic@).len(),
            self@.subscribers(topic@).finite(),
    {
        let mut out: Vec<String> = Vec::new();
        let mut i: usize = 0;
        while i < self.subscriptions.len()
            invariant
                self.wf(),
                i <= self.subscriptions.len(),
                names_of(out@).no_duplicates(),
                forall|x: Seq<char>|
                    names_of(out@).contains(x) <==> exists|j: int|
                        0 <= j < i && #[trigger] self.pairs()[j] == (x, topic@),
            decreases self.subscriptions.len() - i,
        {
            let ghost before = names_of(out@);
            if self.subscriptions[i].1 == *topic {
                let c = self.subscriptions[i].0.clone();
                out.push(c);
                proof {
                    let v = self.pairs()[i as int];
                    assert(names_of(out@) =~= before.push(v.0));
                    if before.contains(v.0) {
                        let j = choose|j: int| 0 <= j < i && #[trigger] self.pairs()[j] == (v.0, topic@);
                        assert(self.pairs()[j] == self.pairs()[i as int]);
                    }
                    assert forall|x: Seq<char>|
                        #[trigger] names_of(out@).contains(x) <==> exists|j: int|
                            0 <= j < i + 1 && #[trigger] self.pairs()[j] == (x, topic@) by {
                        if names_of(out@).contains(x) {
                            if x != v.0 {
                                let nv = names_of(out@);
                                let k = choose|k: int| 0 <= k < nv.len() && #[trigger] nv[k] == x;
                                assert(before[k] == x);
                                assert(before.contains(x));
                            } else {
                                assert(self.pairs()[i as int] == (x, topic@));
                            }
                        }
                        if exists|j: int| 0 <= j < i + 1 && #[trigger] self.pairs()[j] == (x, topic@) {
                            let j = choose|j: int| 0 <= j < i + 1 && #[trigger] self.pairs()[j] == (x, topic@);
                            if j < i {
                                assert(before.contains(x));
                                let k = choose|k: int| 0 <= k < before.len() && before[k] == x;
                                assert(names_of(out@)[k] == x);
                            } else {
                                assert(names_of(out@)[before.len() as int] == x);
                            }
                        }
                    }
                }
            } else {
                proof {
                    assert forall|x: Seq<char>|
                        #[trigger] names_of(out@).contains(x) <==> exists|j: int|
                            0 <= j < i + 1 && #[trigger] self.pairs()[j] == (x, topic@) by {
                        if exists|j: int| 0 <= j < i + 1 && #[trigger] self.pairs()[j] == (x, topic@) {
                            let j = choose|j: int| 0 <= j < i + 1 && #[trigger] self.pairs()[j] == (x, topic@);
                            assert(j != i);
                        }
                    }
                }
            }
            i = i + 1;
        }
        proof {
            let ov = names_of(out@);
            assert forall|x: Seq<char>| ov.to_set().contains(x) <==> self@.subscribers(topic@).contains(x) by {
                if ov.contains(x) {
                    let j = choose|j: int| 0 <= j < i && #[trigger] self.pairs()[j] == (x, topic@);
                    assert(self.pairs().contains((x, topic@)));
                }
                if self.pairs().contains((x, topic@)) {
                    let j = choose|j: int| 0 <= j < self.pairs().len() && self.pairs()[j] == (x, topic@);
                    assert(self.pairs()[j] == (x, topic@));
                }
            }
            assert(ov.to_set() =~= self@.subscribers(topic@));
            ov.unique_seq_to_set();
        }
        out
    }
    /// Subscribe a client to a topic. For a connected client the response
    /// carries the number of subscribers the topic has afterwards.
    pub fn subscribe(&mut self, client: &str, channel: String) -> (r: ServerResponse)
        requires
            old(self).wf(),
        ensures
            final(self).wf(),
            final(self)@ == old(self)@.subscribe(client@, channel@),
            old(self)@.clients.contains(client@) ==> r.is_count(
                final(self)@.subscribers(channel@).len(),
            ),
            !old(self)@.clients.contains(client@) ==> r.is_error_with(
                unknown_subscriber_text(client@),
            ),
    {
        let name = client.to_owned();
        match self.find_client(&name) {
            None => {
                proof {
                    assert(!self@.clients.contains(client@));
                }
                ServerResponse::from_error(&join2("Did not find channels for client ", client))
            },
            Some(ci) => {
                proof {
                    assert(self.client_names().contains(client@)) by {
                        assert(self.client_names()[ci as int] == client@);
                    }
                }
                match self.find_subscription(&name, &channel) {
                    Some(si) => {
                        proof {
                            assert(self.pairs()[si as int] == (client@, channel@));
                            assert(self@.subscriptions.insert((client@, channel@)) =~= self@.subscriptions);
                        }
                    },
                    None => {
                        let ghost old_pairs = self.pairs();
                        self.subscriptions.push((name, channel.clone()));
                        proof {
                            let v = (client@, channel@);
                            assert(self.pairs() =~= old_pairs.push(v));
                            assert(self.client_names() =~= old(self).client_names());
                            assert forall|i: int| 0 <= i < self.pairs().len() implies self.client_names().contains(
                                #[trigger] self.pairs()[i].0,
                            ) by {
                                if i < old_pairs.len() {
                                    assert(old_pairs[i] == self.pairs()[i]);
                                }
                            }
                            assert(self@.subscriptions =~= old(self)@.subscriptions.insert(v)) by {
                                assert(self.pairs()[old_pairs.len() as int] == v);
                                assert forall|x: (Seq<char>, Seq<char>)| old_pairs.contains(x) implies self.pairs().contains(x) by {
                                    let k = choose|k: int| 0 <= k < old_pairs.len() && old_pairs[k] == x;
                                    assert(self.pairs()[k] == x);
                                }
                            }
                        }
                    },
                }
                let n = self.subscribers_of(&channel).len();
                ServerResponse::with_total(n)
            },
        }
    }

    /// Unsubscribe a client from a topic. A topic the client does not follow
    /// is no error.
    pub fn unsubscribe(&mut self, client: &str, channel: String) -> (r: ServerResponse)
        requires
            old(self).wf(),
        ensures
            final(self).wf(),
            final(self)@ == old(self)@.unsubscribe(client@, channel@),
            old(self)@.clients.contains(client@) ==> r.is_success(),
            !old(self)@.clients.contains(client@) ==> r.is_error_with(
                unknown_unsubscriber_text(client@),
            ),
    {
        let name = client.to_owned();
        match self.find_client(&name) {
            None => {
                ServerResponse::from_error(&join2("Did not find channel set for ", client))
            },
            Some(ci) => {
                proof {
                    assert(self.client_names()[ci as int] == client@);
                }
                match self.find_subscription(&name, &channel) {
                    None => {
                        proof {
                            assert(self@.subscriptions.remove((client@, channel@)) =~= self@.subscriptions);
                        }
                    },
                    Some(si) => {
                        let ghost old_pairs = self.pairs();
                        self.subscriptions.remove(si);
                        proof {
                            let v = (client@, channel@);
                            assert(self.pairs() =~= old_pairs.remove(si as int));
                            assert(self.client_names() =~= old(self).client_names());
                            assert forall|i: int| 0 <= i < self.pairs().len() implies self.client_names().contains(
                                #[trigger] self.pairs()[i].0,
                            ) by {
                                if i < si {
                                    assert(old_pairs[i] == self.pairs()[i]);
                                } else {
                                    assert(old_pairs[i + 1] == self.pairs()[i]);
                                }
                            }
                            assert forall|a: int, b: int| 0 <= a < b < self.pairs().len() implies self.pairs()[a] != self.pairs()[b] by {
                                let a1 = if a < si { a } else { a + 1 };
                                let b1 = if b < si { b } else { b + 1 };
                                assert(old_pairs[a1] == self.pairs()[a]);
                                assert(old_pairs[b1] == self.pairs()[b]);
                            }
                            assert(self@.subscriptions =~= old(self)@.subscriptions.remove(v)) by {
                                assert forall|x: (Seq<char>, Seq<char>)| #[trigger] old_pairs.contains(x) && x != v implies self.pairs().contains(x) by {
                                    let k = choose|k: int| 0 <= k < old_pairs.len() && old_pairs[k] == x;
                                    if k < si {
                                        assert(self.pairs()[k] == x);
                                    } else {
                                        assert(k != si);
                                        assert(self.pairs()[k - 1] == x);
                                    }
                                }
                                assert forall|x: (Seq<char>, Seq<char>)| #[trigger] self.pairs().contains(x) implies old_pairs.contains(x) && x != v by {
                                    let k = choose|k: int| 0 <= k < self.pairs().len() && self.pairs()[k] == x;
                                    let k1 = if k < si { k } else { k + 1 };
                                    assert(old_pairs[k1] == x);
                                    assert(k1 != si);
                                }
                            }
                        }
                    },
                }
                ServerResponse::default()
            },
        }
    }
    /// Remove a client and all of its subscriptions. Removing a client that
    /// is not registered changes nothing.
    pub fn remove_client(&mut self, client: &str)
        requires
            old(self).wf(),
        ensures
            final(self).wf(),
            final(self)@ == old(self)@.remove_client(client@),
    {
        let name = client.to_owned();
        let ghost old_names = self.client_names();
        match self.find_client(&name) {
            None => {
                proof {
                    assert(self@.clients.remove(client@) =~= self@.clients);
                }
            },
            Some(ci) => {
                self.clients.remove(ci);
                proof {
                    assert(self.client_names() =~= old_names.remove(ci as int));
                    assert forall|a: int, b: int| 0 <= a < b < self.client_names().len() implies self.client_names()[a] != self.client_names()[b] by {
                        let a1 = if a < ci { a } else { a + 1 };
                        let b1 = if b < ci { b } else { b + 1 };
                        assert(old_names[a1] == self.client_names()[a]);
                        assert(old_names[b1] == self.client_names()[b]);
                    }
                    assert(self@.clients =~= old(self)@.clients.remove(client@)) by {
                        assert forall|x: Seq<char>| #[trigger] old_names.contains(x) && x != client@ implies self.client_names().contains(x) by {
                            let k = choose|k: int| 0 <= k < old_names.len() && old_names[k] == x;
                            if k < ci {
                                assert(self.client_names()[k] == x);
                            } else {
                                assert(k != ci);
                                assert(self.client_names()[k - 1] == x);
                            }
                        }
                        assert forall|x: Seq<char>| #[trigger] self.client_names().contains(x) implies old_names.contains(x) && x != client@ by {
                            let k = choose|k: int| 0 <= k < self.client_names().len() && self.client_names()[k] == x;
                            let k1 = if k < ci { k } else { k + 1 };
                            assert(old_names[k1] == x);
                            assert(k1 != ci);
                        }
                    }
                }
            },
        }
        let ghost pairs = self.pairs();
        let mut kept: Vec<(String, String)> = Vec::new();
        let mut i: usize = 0;
        while i < self.subscriptions.len()
            invariant
                self.pairs() == pairs,
                name@ == client@,
                pairs.no_duplicates(),
                forall|j: int| 0 <= j < pairs.len() ==> old_names.contains(#[trigger] pairs[j].0),
                i <= self.subscriptions.len(),
                pairs_of(kept@).no_duplicates(),
                forall|x: (Seq<char>, Seq<char>)|
                    #[trigger] pairs_of(kept@).contains(x) <==> (exists|j: int|
                        0 <= j < i && #[trigger] pairs[j] == x) && x.0 != client@,
            decreases self.subscriptions.len() - i,
        {
            let ghost before = pairs_of(kept@);
            proof {
                assert(pairs[i as int] == pair_view(self.subscriptions@[i as int]));
            }
            if !(self.subscriptions[i].0 == name) {
                let p = (self.subscriptions[i].0.clone(), self.subscriptions[i].1.clone());
                kept.push(p);
                proof {
                    let v = pairs[i as int];
                    assert(pairs_of(kept@) =~= before.push(v));
                    if before.contains(v) {
                        let j = choose|j: int| 0 <= j < i && #[trigger] pairs[j] == v;
                        assert(pairs[j] == pairs[i as int]);
                    }
                    assert forall|x: (Seq<char>, Seq<char>)|
                        #[trigger] pairs_of(kept@).contains(x) <==> (exists|j: int|
                            0 <= j < i + 1 && #[trigger] pairs[j] == x) && x.0 != client@ by {
                        let nv = pairs_of(kept@);
                        if nv.contains(x) {
                            let k = choose|k: int| 0 <= k < nv.len() && #[trigger] nv[k] == x;
                            if k < before.len() {
                                assert(before[k] == x);
                                assert(before.contains(x));
                            } else {
                                assert(pairs[i as int] == x);
                            }
                        }
                        if (exists|j: int| 0 <= j < i + 1 && #[trigger] pairs[j] == x) && x.0 != client@ {
                            let j = choose|j: int| 0 <= j < i + 1 && #[trigger] pairs[j] == x;
                            if j < i {
                                assert(before.contains(x));
                                let k = choose|k: int| 0 <= k < before.len() && before[k] == x;
                                assert(nv[k] == x);
                            } else {
                                assert(nv[before.len() as int] == x);
                            }
                        }
                    }
                }
            } else {
                proof {
                    assert forall|x: (Seq<char>, Seq<char>)|
                        #[trigger] pairs_of(kept@).contains(x) <==> (exists|j: int|
                            0 <= j < i + 1 && #[trigger] pairs[j] == x) && x.0 != client@ by {
                        if (exists|j: int| 0 <= j < i + 1 && #[trigger] pairs[j] == x) && x.0 != client@ {
                            let j = choose|j: int| 0 <= j < i + 1 && #[trigger] pairs[j] == x;
                            assert(j != i);
                        }
                    }
                }
            }
            i = i + 1;
        }
        self.subscriptions = kept;
        proof {
            assert(self.pairs() =~= pairs_of(kept@));
            assert forall|x: (Seq<char>, Seq<char>)| #[trigger] self.pairs().contains(x) <==> pairs.contains(x) && x.0 != client@ by {
                if pairs.contains(x) {
                    let j = choose|j: int| 0 <= j < pairs.len() && pairs[j] == x;
                    assert(pairs[j] == x);
                }
            }
            assert(self@.subscriptions =~= old(self)@.remove_client(client@).subscriptions);
            assert forall|j: int| 0 <= j < self.pairs().len() implies self.client_names().contains(
                #[trigger] self.pairs()[j].0,
            ) by {
                let x = self.pairs()[j];
                assert(self.pairs().contains(x));
                let k = choose|k: int| 0 <= k < pairs.len() && pairs[k] == x;
                assert(old_names.contains(pairs[k].0));
                assert(self@.clients.contains(x.0));
            }
        }
    }
    /// Publish `content` from `sender` to topic `channel`. When the topic has
    /// subscribers the result holds the message and all of them; the sender
    /// is among them only when it is itself subscribed.
    pub fn publish_message(&self, sender: &str, channel: String, content: String) -> (r: (
        ServerResponse,
        Option<Delivery>,
    ))
        requires
            self.wf(),
        ensures
            self@.has_topic(channel@) ==> r.0.is_success() && match r.1 {
                Some(d) => d.carries(sender@, channel@, content@, self@.subscribers(channel@)),
                None => false,
            },
            !self@.has_topic(channel@) ==> r.0.is_error_with(topic_not_found_text(channel@))
                && r.1 is None,
    {
        let message = PublishedMessage::new(sender, &content, &channel);
        let recipients = self.subscribers_of(&channel);
        if recipients.len() == 0 {
            proof {
                let subs = self@.subscribers(channel@);
                if self@.has_topic(channel@) {
                    let c = choose|c: Seq<char>| self@.subscriptions.contains((c, channel@));
                    assert(subs.contains(c));
                    assert(subs.remove(c).len() + 1 == subs.len());
                }
            }
            let text = join3("Channel '", channel.as_str(), "' not found!");
            (ServerResponse::from_error(&text), None)
        } else {
            proof {
                let subs = self@.subscribers(channel@);
                if subs =~= Set::<Seq<char>>::empty() {
                    assert(subs.len() == 0);
                }
                let c = choose|c: Seq<char>| subs.contains(c);
                assert(self@.subscriptions.contains((c, channel@)));
            }
            (ServerResponse::default(), Some(Delivery { message, recipients }))
        }
    }

    /// Carry out one request of `client`.
    pub fn process_message(&mut self, msg: ClientMessage, client: &str) -> (r: (
        ServerResponse,
        Option<Delivery>,
    ))
        requires
            old(self).wf(),
        ensures
            final(self).wf(),
            match msg {
                ClientMessage::Subscribe { channel_name } => {
                    &&& final(self)@ == old(self)@.subscribe(client@, channel_name@)
                    &&& r.1 is None
                    &&& old(self)@.clients.contains(client@) ==> r.0.is_count(
                        final(self)@.subscribers(channel_name@).len(),
                    )
                    &&& !old(self)@.clients.contains(client@) ==> r.0.is_error_with(
                        unknown_subscriber_text(client@),
                    )
                },
                ClientMessage::Unsubscribe { channel_name } => {
                    &&& final(self)@ == old(self)@.unsubscribe(client@, channel_name@)
                    &&& r.1 is None
                    &&& old(self)@.clients.contains(client@) ==> r.0.is_success()
                    &&& !old(self)@.clients.contains(client@) ==> r.0.is_error_with(
                        unknown_unsubscriber_text(client@),
                    )
                },
                ClientMessage::Publish { channel_name, content } => {
                    &&& final(self)@ == old(self)@
                    &&& old(self)@.has_topic(channel_name@) ==> r.0.is_success() && match r.1 {
                        Some(d) => d.carries(
                            client@,
                            channel_name@,
                            content@,
                            old(self)@.subscribers(channel_name@),
                        ),
                        None => false,
                    }
                    &&& !old(self)@.has_topic(channel_name@) ==> r.0.is_error_with(
                        topic_not_found_text(channel_name@),
                    ) && r.1 is None
                },
            },
    {
        match msg {
            ClientMessage::Subscribe { channel_name } => (self.subscribe(client, channel_name), None),
            ClientMessage::Unsubscribe { channel_name } => (
                self.unsubscribe(client, channel_name),
                None,
            ),
            ClientMessage::Publish { channel_name, content } => self.publish_message(
                client,
                channel_name,
                content,
            ),
        }
    }
}

} // verus!

verus! {

/// In every well-formed registry (every state the operations can reach) a
/// client is among the subscribers of a topic exactly when the topic is among
/// the topics of the client, and no topic is listed without a subscriber.
pub proof fn lemma_indexes_agree(d: &Dispatcher)
    requires
        d.wf(),
    ensures
        forall|c: Seq<char>, t: Seq<char>|
            (#[trigger] d@.topic_subscribers().contains_key(t) && d@.topic_subscribers()[t].contains(c))
                <==> (#[trigger] d@.client_topics().contains_key(c)
                && d@.client_topics()[c].contains(t)),
        forall|t: Seq<char>|
            #[trigger] d@.topic_subscribers().contains_key(t) ==> exists|c: Seq<char>|
                d@.topic_subscribers()[t].contains(c),
{
    assert forall|c: Seq<char>, t: Seq<char>|
        (#[trigger] d@.topic_subscribers().contains_key(t) && d@.topic_subscribers()[t].contains(c))
            implies (#[trigger] d@.client_topics().contains_key(c)
            && d@.client_topics()[c].contains(t)) by {
        let k = choose|k: int| 0 <= k < d.pairs().len() && d.pairs()[k] == (c, t);
        assert(d.client_names().contains(d.pairs()[k].0));
    }
    assert forall|c: Seq<char>, t: Seq<char>|
        (#[trigger] d@.client_topics().contains_key(c) && d@.client_topics()[c].contains(t))
            implies (#[trigger] d@.topic_subscribers().contains_key(t)
            && d@.topic_subscribers()[t].contains(c)) by {
        assert(d@.subscriptions.contains((c, t)));
    }
    assert forall|t: Seq<char>| #[trigger] d@.topic_subscribers().contains_key(t) implies exists|c: Seq<char>|
        d@.topic_subscribers()[t].contains(c) by {
        let c = choose|c: Seq<char>| d@.subscriptions.contains((c, t));
        assert(d@.topic_subscribers()[t].contains(c));
    }
}

/// Unsubscribing a client from a topic twice in a row leaves the registry as
/// one unsubscription does.
pub proof fn lemma_unsubscribe_idempotent(r: Registry, c: Seq<char>, t: Seq<char>)
    ensures
        r.unsubscribe(c, t).unsubscribe(c, t) == r.unsubscribe(c, t),
{
    if r.clients.contains(c) {
        assert(r.subscriptions.remove((c, t)).remove((c, t)) =~= r.subscriptions.remove((c, t)));
    }
}

/// Subscribing a client to a topic a second time changes nothing, so the
/// subscriber count reported is the same both times.
pub proof fn lemma_subscribe_twice_same_count(r: Registry, c: Seq<char>, t: Seq<char>)
    ensures
        r.subscribe(c, t).subscribe(c, t) == r.subscribe(c, t),
        r.subscribe(c, t).subscribe(c, t).subscribers(t).len() == r.subscribe(c, t).subscribers(
            t,
        ).len(),
{
    if r.clients.contains(c) {
        assert(r.subscriptions.insert((c, t)).insert((c, t)) =~= r.subscriptions.insert((c, t)));
    }
}

/// Removing a client twice leaves the registry as one removal does, and
/// afterwards the client follows no topic and is no subscriber of any.
pub proof fn lemma_remove_client_idempotent(r: Registry, c: Seq<char>)
    ensures
        r.remove_client(c).remove_client(c) == r.remove_client(c),
        !r.remove_client(c).clients.contains(c),
        !r.remove_client(c).client_topics().contains_key(c),
        forall|t: Seq<char>| !(#[trigger] r.remove_client(c).subscribers(t)).contains(c),
{
    let once = r.remove_client(c);
    let twice = once.remove_client(c);
    assert(twice.clients =~= once.clients);
    assert(twice.subscriptions =~= once.subscriptions);
}

} // verus!
