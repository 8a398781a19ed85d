//! The clients and ports of the sequencer, and finding a device among them.

use crate::text;
use crate::text::{contains, dec_int_text, to_lower};
use vstd::prelude::*;

verus! {

/// The address of a port.
#[derive(Debug, Clone, Copy, PartialEq, Eq)]
pub struct Addr {
    pub client: i32,
    pub port: i32,
}

/// A port, with what it can be used for.
#[derive(Debug, Clone)]
pub struct Port {
    pub id: i32,
    pub name: String,
    pub read: bool,
    pub subs_read: bool,
    pub write: bool,
    pub subs_write: bool,
}

/// A client, with its ports in order.
#[derive(Debug, Clone)]
pub struct Client {
    pub id: i32,
    pub name: String,
    pub ports: Vec<Port>,
}

/// The contents of a port.
pub struct PortView {
    pub id: i32,
    pub name: Seq<char>,
    pub read: bool,
    pub subs_read: bool,
    pub write: bool,
    pub subs_write: bool,
}

/// The contents of a client.
pub struct ClientView {
    pub id: i32,
    pub name: Seq<char>,
    pub ports: Seq<PortView>,
}

impl View for Port {
    type V = PortView;

    open spec fn view(&self) -> PortView {
        PortView {
            id: self.id,
            name: self.name@,
            read: self.read,
            subs_read: self.subs_read,
            write: self.write,
            subs_write: self.subs_write,
        }
    }
}

/// The contents of each port of a list.
pub open spec fn ports_view(list: Seq<Port>) -> Seq<PortView> {
    list.map_values(|p: Port| p@)
}

impl View for Client {
    type V = ClientView;

    open spec fn view(&self) -> ClientView {
        ClientView { id: self.id, name: self.name@, ports: ports_view(self.ports@) }
    }
}

/// The contents of each client of a list.
pub open spec fn clients_view(list: Seq<Client>) -> Seq<ClientView> {
    list.map_values(|c: Client| c@)
}

impl PortView {
    /// Whether others may subscribe to what the port sends.
    pub open spec fn readable(self) -> bool {
        self.read && self.subs_read
    }

    /// Whether others may subscribe to send to the port.
    pub open spec fn writable(self) -> bool {
        self.write && self.subs_write
    }

    /// The port with its name in lower case.
    pub open spec fn lowered(self) -> PortView {
        PortView { name: text::lowercase(self.name), ..self }
    }
}

impl ClientView {
    /// The client with all names in lower case.
    pub open spec fn lowered(self) -> ClientView {
        ClientView {
            id: self.id,
            name: text::lowercase(self.name),
            ports: self.ports.map_values(|p: PortView| p.lowered()),
        }
    }

    /// Whether the needle occurs in the name of the client or of its port.
    pub open spec fn fits(self, port: PortView, needle: Seq<char>) -> bool {
        text::occurs(needle, self.name) || text::occurs(needle, port.name)
    }

    /// The first of the first `n` ports that fits the needle and can be read.
    pub open spec fn source(self, n: int, needle: Seq<char>) -> Option<Addr>
        decreases n,
    {
        if n <= 0 {
            None
        } else if self.source(n - 1, needle) is Some {
            self.source(n - 1, needle)
        } else if self.fits(self.ports[n - 1], needle) && self.ports[n - 1].readable() {
            Some(Addr { client: self.id, port: self.ports[n - 1].id })
        } else {
            None
        }
    }

    /// The first of the first `n` ports that fits the needle and can be written.
    pub open spec fn dest(self, n: int, needle: Seq<char>) -> Option<Addr>
        decreases n,
    {
        if n <= 0 {
            None
        } else if self.dest(n - 1, needle) is Some {
            self.dest(n - 1, needle)
        } else if self.fits(self.ports[n - 1], needle) && self.ports[n - 1].writable() {
            Some(Addr { client: self.id, port: self.ports[n - 1].id })
        } else {
            None
        }
    }

    /// The ports through which the client can be both read and written.
    pub open spec fn both(self, needle: Seq<char>) -> Option<(Addr, Addr)> {
        match (
            self.source(self.ports.len() as int, needle),
            self.dest(self.ports.len() as int, needle),
        ) {
            (Some(source), Some(dest)) => Some((source, dest)),
            _ => None,
        }
    }
}

/// All clients with their names in lower case.
pub open spec fn all_lowered(clients: Seq<ClientView>) -> Seq<ClientView> {
    clients.map_values(|c: ClientView| c.lowered())
}

/// The first port, client by client, that fits the needle and can be read.
pub open spec fn source_among(clients: Seq<ClientView>, needle: Seq<char>) -> Option<Addr>
    decreases clients.len(),
{
    if clients.len() == 0 {
        None
    } else if source_among(clients.drop_last(), needle) is Some {
        source_among(clients.drop_last(), needle)
    } else {
        clients.last().source(clients.last().ports.len() as int, needle)
    }
}

/// The ports of the first client other than our own that fits the needle and can
/// be both read and written.
pub open spec fn device_among(
    clients: Seq<ClientView>,
    needle: Seq<char>,
    own: i32,
) -> Option<(Addr, Addr)>
    decreases clients.len(),
{
    if clients.len() == 0 {
        None
    } else if device_among(clients.drop_last(), needle, own) is Some {
        device_among(clients.drop_last(), needle, own)
    } else if clients.last().id == own {
        None
    } else {
        clients.last().both(needle)
    }
}

/// Whether a client has a port with this address.
pub open spec fn alive(clients: Seq<ClientView>, addr: Addr) -> bool {
    exists|i: int, k: int|
        0 <= i < clients.len() && 0 <= k < clients[i].ports.len() && clients[i].id == addr.client && (
        #[trigger] clients[i].ports[k]).id == addr.port
}

/// An address as text.
pub open spec fn addr_words(addr: Addr) -> Seq<char> {
    text::dec_int(addr.client as int) + ":"@ + text::dec_int(addr.port as int)
}

/// An address as text.
pub fn addr_text(addr: Addr) -> (r: String)
    ensures
        r@ == addr_words(addr),
{
    dec_int_text(addr.client as i64).concat(":").concat(dec_int_text(addr.port as i64).as_str())
}

fn lower_ports(ports: &Vec<Port>) -> (r: Vec<Port>)
    ensures
        ports_view(r@) == ports_view(ports@).map_values(|p: PortView| p.lowered()),
{
    let mut out: Vec<Port> = Vec::new();
    let mut i: usize = 0;
    while i < ports.len()
        invariant
            i <= ports.len(),
            out@.len() == i,
            forall|k: int| 0 <= k < i ==> (#[trigger] out@[k])@ == ports@[k]@.lowered(),
        decreases ports.len() - i,
    {
        let p = &ports[i];
        out.push(
            Port {
                id: p.id,
                name: to_lower(p.name.as_str()),
                read: p.read,
                subs_read: p.subs_read,
                write: p.write,
                subs_write: p.subs_write,
            },
        );
        i = i + 1;
    }
    assert(ports_view(out@) =~= ports_view(ports@).map_values(|p: PortView| p.lowered()));
    out
}

fn lower_clients(clients: &Vec<Client>) -> (r: Vec<Client>)
    ensures
        clients_view(r@) == all_lowered(clients_view(clients@)),
{
    let mut out: Vec<Client> = Vec::new();
    let mut i: usize = 0;
    while i < clients.len()
        invariant
            i <= clients.len(),
            out@.len() == i,
            forall|k: int| 0 <= k < i ==> (#[trigger] out@[k])@ == clients@[k]@.lowered(),
        decreases clients.len() - i,
    {
        let c = &clients[i];
        out.push(
            Client { id: c.id, name: to_lower(c.name.as_str()), ports: lower_ports(&c.ports) },
        );
        i = i + 1;
    }
    assert(clients_view(out@) =~= all_lowered(clients_view(clients@)));
    out
}

fn port_fits(client: &Client, port: &Port, needle: &str) -> (r: bool)
    ensures
        r == client@.fits(port@, needle@),
{
    contains(client.name.as_str(), needle) || contains(port.name.as_str(), needle)
}

fn client_ports(client: &Client, needle: &str) -> (r: (Option<Addr>, Option<Addr>))
    ensures
        r.0 == client@.source(client@.ports.len() as int, needle@),
        r.1 == client@.dest(client@.ports.len() as int, needle@),
{
    let mut source: Option<Addr> = None;
    let mut dest: Option<Addr> = None;
    let mut i: usize = 0;
    while i < client.ports.len()
        invariant
            i <= client.ports.len(),
            source == client@.source(i as int, needle@),
            dest == client@.dest(i as int, needle@),
        decreases client.ports.len() - i,
    {
        let port = &client.ports[i];
        assert(client@.ports[i as int] == port@);
        if port_fits(client, port, needle) {
            let addr = Addr { client: client.id, port: port.id };
            if source.is_none() && port.read && port.subs_read {
                source = Some(addr);
            }
            if dest.is_none() && port.write && port.subs_write {
                dest = Some(addr);
            }
        }
        i = i + 1;
    }
    (source, dest)
}

/// The first port that fits the needle and can be read, where all names and the
/// needle are in lower case.
pub fn source_of_lowered(clients: &Vec<Client>, needle: &str) -> (r: Option<Addr>)
    ensures
        r == source_among(clients_view(clients@), needle@),
{
    let ghost all = clients_view(clients@);
    let mut found: Option<Addr> = None;
    let mut i: usize = 0;
    while i < clients.len()
        invariant
            i <= clients.len(),
            all == clients_view(clients@),
            found == source_among(all.take(i as int), needle@),
        decreases clients.len() - i,
    {
        assert(all.take(i + 1).drop_last() =~= all.take(i as int));
        if found.is_none() {
            let (source, _) = client_ports(&clients[i], needle);
            found = source;
        }
        i = i + 1;
    }
    assert(all.take(all.len() as int) =~= all);
    found
}

/// The ports of the first client other than our own that fits the needle and can
/// be both read and written, where all names and the needle are in lower case.
///
/// Both come from the same client: taken separately, a needle that fits two
/// devices could have us send to one and listen to the other.
pub fn device_of_lowered(clients: &Vec<Client>, needle: &str, own: i32) -> (r: Option<(Addr, Addr)>)
    ensures
        r == device_among(clients_view(clients@), needle@, own),
{
    let ghost all = clients_view(clients@);
    let mut found: Option<(Addr, Addr)> = None;
    let mut i: usize = 0;
    while i < clients.len()
        invariant
            i <= clients.len(),
            all == clients_view(clients@),
            found == device_among(all.take(i as int), needle@, own),
        decreases clients.len() - i,
    {
        assert(all.take(i + 1).drop_last() =~= all.take(i as int));
        if found.is_none() && clients[i].id != own {
            if let (Some(source), Some(dest)) = client_ports(&clients[i], needle) {
                found = Some((source, dest));
            }
        }
        i = i + 1;
    }
    assert(all.take(all.len() as int) =~= all);
    found
}

/// The first port whose name, or whose client's name, holds the needle in either
/// case, and that can be read.
pub fn find_source(clients: &Vec<Client>, needle: &str) -> (r: Option<Addr>)
    ensures
        r == source_among(all_lowered(clients_view(clients@)), text::lowercase(needle@)),
{
    source_of_lowered(&lower_clients(clients), to_lower(needle).as_str())
}

/// The ports of the first client other than our own whose name, or whose ports'
/// names, hold the needle in either case, and that can be both read and written.
pub fn find_device(clients: &Vec<Client>, needle: &str, own_client: i32) -> (r: Option<
    (Addr, Addr),
>)
    ensures
        r == device_among(
            all_lowered(clients_view(clients@)),
            text::lowercase(needle@),
            own_client,
        ),
{
    device_of_lowered(&lower_clients(clients), to_lower(needle).as_str(), own_client)
}

/// Whether a client has a port with this address.
pub fn port_alive(clients: &Vec<Client>, addr: Addr) -> (r: bool)
    ensures
        r == alive(clients_view(clients@), addr),
{
    let ghost all = clients_view(clients@);
    let mut i: usize = 0;
    while i < clients.len()
        invariant
            i <= clients.len(),
            all == clients_view(clients@),
            forall|j: int, k: int|
                0 <= j < i && 0 <= k < all[j].ports.len() && all[j].id == addr.client ==> (
                #[trigger] all[j].ports[k]).id != addr.port,
        decreases clients.len() - i,
    {
        let client = &clients[i];
        assert(all[i as int] == client@);
        let mut n: usize = 0;
        while n < client.ports.len()
            invariant
                i < clients.len(),
                n <= client.ports.len(),
                all == clients_view(clients@),
                client@ == all[i as int],
                client.id == addr.client ==> forall|k: int|
                    0 <= k < n ==> (#[trigger] all[i as int].ports[k]).id != addr.port,
            decreases client.ports.len() - n,
        {
            assert(all[i as int].ports[n as int].id == client.ports@[n as int].id);
            if client.id == addr.client && client.ports[n].id == addr.port {
                return true;
            }
            n = n + 1;
        }
        i = i + 1;
    }
    false
}

// ---------------------------------------------------------------------------
// Laws
// ---------------------------------------------------------------------------

proof fn lemma_source(client: ClientView, n: int, needle: Seq<char>)
    requires
        0 <= n <= client.ports.len(),
    ensures
        client.source(n, needle) matches Some(a) ==> a.client == client.id && exists|k: int|
            0 <= k < n && (#[trigger] client.ports[k]).id == a.port && client.ports[k].readable()
                && client.fits(client.ports[k], needle),
    decreases n,
{
    if n > 0 {
        lemma_source(client, n - 1, needle);
    }
}

proof fn lemma_dest(client: ClientView, n: int, needle: Seq<char>)
    requires
        0 <= n <= client.ports.len(),
    ensures
        client.dest(n, needle) matches Some(a) ==> a.client == client.id && exists|k: int|
            0 <= k < n && (#[trigger] client.ports[k]).id == a.port && client.ports[k].writable()
                && client.fits(client.ports[k], needle),
    decreases n,
{
    if n > 0 {
        lemma_dest(client, n - 1, needle);
    }
}

/// A device that was found is one client, not our own: what is listened to and
/// what is sent to are ports of it that fit the needle.
pub proof fn law_device_is_one_client(clients: Seq<ClientView>, needle: Seq<char>, own: i32)
    ensures
        device_among(clients, needle, own) matches Some((source, dest)) ==> source.client
            == dest.client && source.client != own && alive(clients, source) && alive(clients, dest)
            && exists|i: int|
            0 <= i < clients.len() && (#[trigger] clients[i]).both(needle) == Some((source, dest)),
    decreases clients.len(),
{
    if clients.len() > 0 {
        let before = clients.drop_last();
        let last = clients.len() - 1;
        law_device_is_one_client(before, needle, own);
        if let Some((source, dest)) = device_among(before, needle, own) {
            let i = choose|i: int|
                0 <= i < before.len() && (#[trigger] before[i]).both(needle) == Some((source, dest));
            assert(clients[i].both(needle) == Some((source, dest)));
            lemma_source(clients[i], clients[i].ports.len() as int, needle);
            lemma_dest(clients[i], clients[i].ports.len() as int, needle);
        } else if let Some((source, dest)) = device_among(clients, needle, own) {
            assert(clients[last].both(needle) == Some((source, dest)));
            lemma_source(clients[last], clients[last].ports.len() as int, needle);
            lemma_dest(clients[last], clients[last].ports.len() as int, needle);
        }
    }
}

/// A source that was found is there.
pub proof fn law_source_is_alive(clients: Seq<ClientView>, needle: Seq<char>)
    ensures
        source_among(clients, needle) matches Some(source) ==> alive(clients, source),
    decreases clients.len(),
{
    if clients.len() > 0 {
        let before = clients.drop_last();
        let last = clients.len() - 1;
        law_source_is_alive(before, needle);
        if let Some(source) = source_among(before, needle) {
            let (i, k) = choose|i: int, k: int|
                0 <= i < before.len() && 0 <= k < before[i].ports.len() && before[i].id
                    == source.client && (#[trigger] before[i].ports[k]).id == source.port;
            assert(clients[i].ports[k].id == source.port);
        } else {
            lemma_source(clients[last], clients[last].ports.len() as int, needle);
        }
    }
}

/// Whether what a port sends can be had, and it goes by the needle: the needle is in its
/// client's name or in its own.
pub open spec fn hears(client: ClientView, k: int, needle: Seq<char>) -> bool {
    &&& client.ports[k].read
    &&& client.ports[k].subs_read
    &&& text::occurs(needle, client.name) || text::occurs(needle, client.ports[k].name)
}

/// Whether a port can be sent to, and it goes by the needle.
pub open spec fn takes(client: ClientView, k: int, needle: Seq<char>) -> bool {
    &&& client.ports[k].write
    &&& client.ports[k].subs_write
    &&& text::occurs(needle, client.name) || text::occurs(needle, client.ports[k].name)
}

/// Whether `k` is the first of a client's ports that can be had and goes by the needle.
pub open spec fn first_to_hear(client: ClientView, k: int, needle: Seq<char>) -> bool {
    &&& 0 <= k < client.ports.len()
    &&& hears(client, k, needle)
    &&& forall|m: int| 0 <= m < k ==> !#[trigger] hears(client, m, needle)
}

/// Whether `k` is the first of a client's ports that can be sent to and goes by the needle.
pub open spec fn first_to_take(client: ClientView, k: int, needle: Seq<char>) -> bool {
    &&& 0 <= k < client.ports.len()
    &&& takes(client, k, needle)
    &&& forall|m: int| 0 <= m < k ==> !#[trigger] takes(client, m, needle)
}

proof fn lemma_no_source(client: ClientView, n: int, needle: Seq<char>)
    requires
        0 <= n <= client.ports.len(),
        forall|m: int| 0 <= m < n ==> !#[trigger] hears(client, m, needle),
    ensures
        client.source(n, needle) is None,
    decreases n,
{
    if n > 0 {
        lemma_no_source(client, n - 1, needle);
        assert(!hears(client, n - 1, needle));
    }
}

proof fn lemma_no_dest(client: ClientView, n: int, needle: Seq<char>)
    requires
        0 <= n <= client.ports.len(),
        forall|m: int| 0 <= m < n ==> !#[trigger] takes(client, m, needle),
    ensures
        client.dest(n, needle) is None,
    decreases n,
{
    if n > 0 {
        lemma_no_dest(client, n - 1, needle);
        assert(!takes(client, n - 1, needle));
    }
}

proof fn lemma_source_at(client: ClientView, k: int, n: int, needle: Seq<char>)
    requires
        first_to_hear(client, k, needle),
        k < n <= client.ports.len(),
    ensures
        client.source(n, needle) == Some(Addr { client: client.id, port: client.ports[k].id }),
    decreases n,
{
    if n - 1 > k {
        lemma_source_at(client, k, n - 1, needle);
    } else {
        lemma_no_source(client, k, needle);
    }
}

proof fn lemma_dest_at(client: ClientView, k: int, n: int, needle: Seq<char>)
    requires
        first_to_take(client, k, needle),
        k < n <= client.ports.len(),
    ensures
        client.dest(n, needle) == Some(Addr { client: client.id, port: client.ports[k].id }),
    decreases n,
{
    if n - 1 > k {
        lemma_dest_at(client, k, n - 1, needle);
    } else {
        lemma_no_dest(client, k, needle);
    }
}

/// Whether nothing of a client can be had under the needle.
pub open spec fn silent(client: ClientView, needle: Seq<char>) -> bool {
    forall|k: int| 0 <= k < client.ports.len() ==> !#[trigger] hears(client, k, needle)
}

/// Whether nothing can be sent to a client under the needle.
pub open spec fn deaf(client: ClientView, needle: Seq<char>) -> bool {
    forall|k: int| 0 <= k < client.ports.len() ==> !#[trigger] takes(client, k, needle)
}

/// The source is the first port of the first client that has any that can be had and
/// goes by the needle.
pub proof fn law_source_is_the_first(
    clients: Seq<ClientView>,
    i: int,
    k: int,
    needle: Seq<char>,
)
    requires
        0 <= i < clients.len(),
        first_to_hear(clients[i], k, needle),
        forall|j: int| 0 <= j < i ==> silent(#[trigger] clients[j], needle),
    ensures
        source_among(clients, needle) == Some(
            Addr { client: clients[i].id, port: clients[i].ports[k].id },
        ),
    decreases clients.len(),
{
    let before = clients.drop_last();
    if i < before.len() {
        assert(before[i] == clients[i]);
        assert forall|j: int| 0 <= j < i implies silent(#[trigger] before[j], needle) by {
            assert(before[j] == clients[j]);
        }
        law_source_is_the_first(before, i, k, needle);
    } else {
        assert forall|j: int| 0 <= j < before.len() implies silent(
            #[trigger] before[j],
            needle,
        ) by {
            assert(before[j] == clients[j]);
        }
        law_no_source_where_all_are_silent(before, needle);
        lemma_source_at(clients[i], k, clients[i].ports.len() as int, needle);
    }
}

/// There is no source where no port can be had that goes by the needle.
pub proof fn law_no_source_where_all_are_silent(clients: Seq<ClientView>, needle: Seq<char>)
    requires
        forall|j: int| 0 <= j < clients.len() ==> silent(#[trigger] clients[j], needle),
    ensures
        source_among(clients, needle) is None,
    decreases clients.len(),
{
    if clients.len() > 0 {
        let before = clients.drop_last();
        assert forall|j: int| 0 <= j < before.len() implies silent(
            #[trigger] before[j],
            needle,
        ) by {
            assert(before[j] == clients[j]);
        }
        law_no_source_where_all_are_silent(before, needle);
        let last = clients[clients.len() - 1];
        assert(silent(last, needle));
        lemma_no_source(last, last.ports.len() as int, needle);
    }
}

/// A device is passed over where it is our own client, or has no port to listen to, or
/// none to send to.
pub open spec fn passed_over(client: ClientView, needle: Seq<char>, own: i32) -> bool {
    client.id == own || silent(client, needle) || deaf(client, needle)
}

proof fn lemma_not_both(client: ClientView, needle: Seq<char>)
    requires
        silent(client, needle) || deaf(client, needle),
    ensures
        client.both(needle) is None,
{
    if silent(client, needle) {
        lemma_no_source(client, client.ports.len() as int, needle);
    } else {
        lemma_no_dest(client, client.ports.len() as int, needle);
    }
}

/// There is no device where every client is passed over.
pub proof fn law_no_device_where_all_are_passed_over(
    clients: Seq<ClientView>,
    needle: Seq<char>,
    own: i32,
)
    requires
        forall|j: int| 0 <= j < clients.len() ==> passed_over(#[trigger] clients[j], needle, own),
    ensures
        device_among(clients, needle, own) is None,
    decreases clients.len(),
{
    if clients.len() > 0 {
        let before = clients.drop_last();
        assert forall|j: int| 0 <= j < before.len() implies passed_over(
            #[trigger] before[j],
            needle,
            own,
        ) by {
            assert(before[j] == clients[j]);
        }
        law_no_device_where_all_are_passed_over(before, needle, own);
        let last = clients[clients.len() - 1];
        assert(passed_over(last, needle, own));
        if last.id != own {
            lemma_not_both(last, needle);
        }
    }
}

/// The device is the first client that is not passed over: what is listened to is its
/// first port that can be had, what is sent to its first that can be sent to.
pub proof fn law_device_is_the_first(
    clients: Seq<ClientView>,
    i: int,
    k: int,
    m: int,
    needle: Seq<char>,
    own: i32,
)
    requires
        0 <= i < clients.len(),
        clients[i].id != own,
        first_to_hear(clients[i], k, needle),
        first_to_take(clients[i], m, needle),
        forall|j: int| 0 <= j < i ==> passed_over(#[trigger] clients[j], needle, own),
    ensures
        device_among(clients, needle, own) == Some(
            (
                Addr { client: clients[i].id, port: clients[i].ports[k].id },
                Addr { client: clients[i].id, port: clients[i].ports[m].id },
            ),
        ),
    decreases clients.len(),
{
    let before = clients.drop_last();
    if i < before.len() {
        assert(before[i] == clients[i]);
        assert forall|j: int| 0 <= j < i implies passed_over(
            #[trigger] before[j],
            needle,
            own,
        ) by {
            assert(before[j] == clients[j]);
        }
        law_device_is_the_first(before, i, k, m, needle, own);
    } else {
        assert forall|j: int| 0 <= j < before.len() implies passed_over(
            #[trigger] before[j],
            needle,
            own,
        ) by {
            assert(before[j] == clients[j]);
        }
        law_no_device_where_all_are_passed_over(before, needle, own);
        lemma_source_at(clients[i], k, clients[i].ports.len() as int, needle);
        lemma_dest_at(clients[i], m, clients[i].ports.len() as int, needle);
    }
}

/// Only names are put in lower case: what a client or a port is, and what it can be used
/// for, stays as it was.
pub proof fn law_only_names_are_lowered(clients: Seq<ClientView>, i: int, k: int)
    requires
        0 <= i < clients.len(),
        0 <= k < clients[i].ports.len(),
    ensures
        ({
            let low = all_lowered(clients);
            &&& low.len() == clients.len()
            &&& low[i].id == clients[i].id
            &&& low[i].name == text::lowercase(clients[i].name)
            &&& low[i].ports.len() == clients[i].ports.len()
            &&& low[i].ports[k].id == clients[i].ports[k].id
            &&& low[i].ports[k].name == text::lowercase(clients[i].ports[k].name)
            &&& low[i].ports[k].read == clients[i].ports[k].read
            &&& low[i].ports[k].subs_read == clients[i].ports[k].subs_read
            &&& low[i].ports[k].write == clients[i].ports[k].write
            &&& low[i].ports[k].subs_write == clients[i].ports[k].subs_write
        }),
{
}

/// The text of an address is its client, a colon and its port.
pub proof fn law_address_text_tells_client_and_port(addr: Addr)
    ensures
        ({
            let s = addr_words(addr);
            let n = text::dec_int(addr.client as int).len() as int;
            &&& s.take(n) == text::dec_int(addr.client as int)
            &&& s[n] == ':'
            &&& s.skip(n + 1) == text::dec_int(addr.port as int)
        }),
{
    reveal_strlit(":");
    let s = addr_words(addr);
    let n = text::dec_int(addr.client as int).len() as int;
    assert(s.take(n) =~= text::dec_int(addr.client as int));
    assert(s.skip(n + 1) =~= text::dec_int(addr.port as int));
}

} // verus!
