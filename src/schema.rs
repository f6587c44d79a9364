//! The frame schema: commands, known headers, and which headers, custom
//! headers and body each command carries.
use vstd::prelude::*;

verus! {

/// Whether a frame is sent by a client or by a server.
#[derive(PartialEq, Eq, Structural, Clone, Copy, Debug)]
pub enum Direction {
    Client,
    Server,
}

/// A frame command. `STOMP` on the wire is read as `Connect`.
#[derive(PartialEq, Eq, Structural, Clone, Copy, Debug)]
pub enum Command {
    Abort,
    Ack,
    Begin,
    Commit,
    Connect,
    Disconnect,
    Nack,
    Send,
    Subscribe,
    Unsubscribe,
    Connected,
    Receipt,
    Error,
    Message,
}

/// A header that some command's schema knows by name.
#[derive(PartialEq, Eq, Structural, Clone, Copy, Debug)]
pub enum HeaderName {
    AcceptVersion,
    Ack,
    ContentLength,
    ContentType,
    Destination,
    HeartBeat,
    Host,
    Id,
    Login,
    MessageId,
    Passcode,
    Receipt,
    ReceiptId,
    Server,
    Session,
    Subscription,
    Transaction,
    Version,
}

pub open spec fn direction_of(c: Command) -> Direction {
    match c {
        Command::Abort => Direction::Client,
        Command::Ack => Direction::Client,
        Command::Begin => Direction::Client,
        Command::Commit => Direction::Client,
        Command::Connect => Direction::Client,
        Command::Disconnect => Direction::Client,
        Command::Nack => Direction::Client,
        Command::Send => Direction::Client,
        Command::Subscribe => Direction::Client,
        Command::Unsubscribe => Direction::Client,
        Command::Connected => Direction::Server,
        Command::Receipt => Direction::Server,
        Command::Error => Direction::Server,
        Command::Message => Direction::Server,
    }
}

/// Header escaping is switched off for the session-opening commands.
pub open spec fn escapes(c: Command) -> bool {
    c != Command::Connect && c != Command::Connected
}

/// The command token written on the wire.
pub open spec fn command_token(c: Command) -> Seq<u8> {
    match c {
        Command::Abort => seq![65u8, 66u8, 79u8, 82u8, 84u8],
        Command::Ack => seq![65u8, 67u8, 75u8],
        Command::Begin => seq![66u8, 69u8, 71u8, 73u8, 78u8],
        Command::Commit => seq![67u8, 79u8, 77u8, 77u8, 73u8, 84u8],
        Command::Connect => seq![67u8, 79u8, 78u8, 78u8, 69u8, 67u8, 84u8],
        Command::Disconnect => seq![68u8, 73u8, 83u8, 67u8, 79u8, 78u8, 78u8, 69u8, 67u8, 84u8],
        Command::Nack => seq![78u8, 65u8, 67u8, 75u8],
        Command::Send => seq![83u8, 69u8, 78u8, 68u8],
        Command::Subscribe => seq![83u8, 85u8, 66u8, 83u8, 67u8, 82u8, 73u8, 66u8, 69u8],
        Command::Unsubscribe => seq![85u8, 78u8, 83u8, 85u8, 66u8, 83u8, 67u8, 82u8, 73u8, 66u8, 69u8],
        Command::Connected => seq![67u8, 79u8, 78u8, 78u8, 69u8, 67u8, 84u8, 69u8, 68u8],
        Command::Receipt => seq![82u8, 69u8, 67u8, 69u8, 73u8, 80u8, 84u8],
        Command::Error => seq![69u8, 82u8, 82u8, 79u8, 82u8],
        Command::Message => seq![77u8, 69u8, 83u8, 83u8, 65u8, 71u8, 69u8],
    }
}

/// The alternative token that reads as `Connect`.
pub open spec fn stomp_token() -> Seq<u8> {
    seq![83u8, 84u8, 79u8, 77u8, 80u8]
}

/// The command that a token on the wire names, if any.
pub open spec fn command_lookup(t: Seq<u8>) -> Option<Command> {
    if t == command_token(Command::Abort) {
        Some(Command::Abort)
    } else if t == command_token(Command::Ack) {
        Some(Command::Ack)
    } else if t == command_token(Command::Begin) {
        Some(Command::Begin)
    } else if t == command_token(Command::Commit) {
        Some(Command::Commit)
    } else if t == command_token(Command::Connect) {
        Some(Command::Connect)
    } else if t == command_token(Command::Disconnect) {
        Some(Command::Disconnect)
    } else if t == command_token(Command::Nack) {
        Some(Command::Nack)
    } else if t == command_token(Command::Send) {
        Some(Command::Send)
    } else if t == command_token(Command::Subscribe) {
        Some(Command::Subscribe)
    } else if t == command_token(Command::Unsubscribe) {
        Some(Command::Unsubscribe)
    } else if t == command_token(Command::Connected) {
        Some(Command::Connected)
    } else if t == command_token(Command::Receipt) {
        Some(Command::Receipt)
    } else if t == command_token(Command::Error) {
        Some(Command::Error)
    } else if t == command_token(Command::Message) {
        Some(Command::Message)
    } else if t == stomp_token() {
        Some(Command::Connect)
    } else {
        None
    }
}

/// The name of a known header.
pub open spec fn header_token(h: HeaderName) -> Seq<u8> {
    match h {
        HeaderName::AcceptVersion => seq![97u8, 99u8, 99u8, 101u8, 112u8, 116u8, 45u8, 118u8, 101u8, 114u8, 115u8, 105u8, 111u8, 110u8],
        HeaderName::Ack => seq![97u8, 99u8, 107u8],
        HeaderName::ContentLength => seq![99u8, 111u8, 110u8, 116u8, 101u8, 110u8, 116u8, 45u8, 108u8, 101u8, 110u8, 103u8, 116u8, 104u8],
        HeaderName::ContentType => seq![99u8, 111u8, 110u8, 116u8, 101u8, 110u8, 116u8, 45u8, 116u8, 121u8, 112u8, 101u8],
        HeaderName::Destination => seq![100u8, 101u8, 115u8, 116u8, 105u8, 110u8, 97u8, 116u8, 105u8, 111u8, 110u8],
        HeaderName::HeartBeat => seq![104u8, 101u8, 97u8, 114u8, 116u8, 45u8, 98u8, 101u8, 97u8, 116u8],
        HeaderName::Host => seq![104u8, 111u8, 115u8, 116u8],
        HeaderName::Id => seq![105u8, 100u8],
        HeaderName::Login => seq![108u8, 111u8, 103u8, 105u8, 110u8],
        HeaderName::MessageId => seq![109u8, 101u8, 115u8, 115u8, 97u8, 103u8, 101u8, 45u8, 105u8, 100u8],
        HeaderName::Passcode => seq![112u8, 97u8, 115u8, 115u8, 99u8, 111u8, 100u8, 101u8],
        HeaderName::Receipt => seq![114u8, 101u8, 99u8, 101u8, 105u8, 112u8, 116u8],
        HeaderName::ReceiptId => seq![114u8, 101u8, 99u8, 101u8, 105u8, 112u8, 116u8, 45u8, 105u8, 100u8],
        HeaderName::Server => seq![115u8, 101u8, 114u8, 118u8, 101u8, 114u8],
        HeaderName::Session => seq![115u8, 101u8, 115u8, 115u8, 105u8, 111u8, 110u8],
        HeaderName::Subscription => seq![115u8, 117u8, 98u8, 115u8, 99u8, 114u8, 105u8, 112u8, 116u8, 105u8, 111u8, 110u8],
        HeaderName::Transaction => seq![116u8, 114u8, 97u8, 110u8, 115u8, 97u8, 99u8, 116u8, 105u8, 111u8, 110u8],
        HeaderName::Version => seq![118u8, 101u8, 114u8, 115u8, 105u8, 111u8, 110u8],
    }
}

/// The known headers of a command in their declared order, each with whether
/// it is required.
pub open spec fn schema(c: Command) -> Seq<(HeaderName, bool)> {
    match c {
        Command::Abort => seq![(HeaderName::Transaction, true)],
        Command::Ack => seq![(HeaderName::Id, true), (HeaderName::Transaction, true), (HeaderName::Receipt, false)],
        Command::Begin => seq![(HeaderName::Transaction, true), (HeaderName::Receipt, false)],
        Command::Commit => seq![(HeaderName::Transaction, true), (HeaderName::Receipt, false)],
        Command::Connect => seq![(HeaderName::Host, true), (HeaderName::AcceptVersion, true), (HeaderName::HeartBeat, false), (HeaderName::Login, false), (HeaderName::Passcode, false)],
        Command::Disconnect => seq![(HeaderName::Receipt, true)],
        Command::Nack => seq![(HeaderName::Id, true), (HeaderName::Transaction, true), (HeaderName::Receipt, false)],
        Command::Send => seq![(HeaderName::Destination, true), (HeaderName::ContentType, false), (HeaderName::ContentLength, false), (HeaderName::Transaction, false), (HeaderName::Receipt, false)],
        Command::Subscribe => seq![(HeaderName::Destination, true), (HeaderName::Id, true), (HeaderName::Ack, false), (HeaderName::Receipt, false)],
        Command::Unsubscribe => seq![(HeaderName::Id, true), (HeaderName::Receipt, false)],
        Command::Connected => seq![(HeaderName::Version, true), (HeaderName::HeartBeat, false), (HeaderName::Session, false), (HeaderName::Server, false)],
        Command::Receipt => seq![(HeaderName::ReceiptId, true)],
        Command::Error => seq![],
        Command::Message => seq![(HeaderName::MessageId, true), (HeaderName::Destination, true), (HeaderName::Subscription, true), (HeaderName::ContentType, false), (HeaderName::ContentLength, false)],
    }
}

/// Whether a command carries headers outside its schema.
pub open spec fn allows_custom(c: Command) -> bool {
    c == Command::Send || c == Command::Subscribe || c == Command::Error
}

/// Whether a command carries a body.
pub open spec fn allows_body(c: Command) -> bool {
    c == Command::Send || c == Command::Error || c == Command::Message
}

/// Whether `name` is the name of a header in the schema of `c`.
pub open spec fn is_known(c: Command, name: Seq<u8>) -> bool {
    exists|i: int| 0 <= i < schema(c).len() && header_token(#[trigger] schema(c)[i].0) == name
}

impl Command {
    pub fn direction(&self) -> (r: Direction)
        ensures
            r == direction_of(*self),
    {
        match self {
            Command::Abort => Direction::Client,
            Command::Ack => Direction::Client,
            Command::Begin => Direction::Client,
            Command::Commit => Direction::Client,
            Command::Connect => Direction::Client,
            Command::Disconnect => Direction::Client,
            Command::Nack => Direction::Client,
            Command::Send => Direction::Client,
            Command::Subscribe => Direction::Client,
            Command::Unsubscribe => Direction::Client,
            Command::Connected => Direction::Server,
            Command::Receipt => Direction::Server,
            Command::Error => Direction::Server,
            Command::Message => Direction::Server,
        }
    }

    pub fn escapes(&self) -> (r: bool)
        ensures
            r == escapes(*self),
    {
        match self {
            Command::Connect => false,
            Command::Connected => false,
            _ => true,
        }
    }

    pub fn allows_custom(&self) -> (r: bool)
        ensures
            r == allows_custom(*self),
    {
        match self {
            Command::Abort => false,
            Command::Ack => false,
            Command::Begin => false,
            Command::Commit => false,
            Command::Connect => false,
            Command::Disconnect => false,
            Command::Nack => false,
            Command::Send => true,
            Command::Subscribe => true,
            Command::Unsubscribe => false,
            Command::Connected => false,
            Command::Receipt => false,
            Command::Error => true,
            Command::Message => false,
        }
    }

    pub fn allows_body(&self) -> (r: bool)
        ensures
            r == allows_body(*self),
    {
        match self {
            Command::Abort => false,
            Command::Ack => false,
            Command::Begin => false,
            Command::Commit => false,
            Command::Connect => false,
            Command::Disconnect => false,
            Command::Nack => false,
            Command::Send => true,
            Command::Subscribe => false,
            Command::Unsubscribe => false,
            Command::Connected => false,
            Command::Receipt => false,
            Command::Error => true,
            Command::Message => true,
        }
    }

    /// The token written on the wire.
    pub fn token(&self) -> (r: Vec<u8>)
        ensures
            r@ == command_token(*self),
    {
        let r = match self {
            Command::Abort => vec![65u8, 66u8, 79u8, 82u8, 84u8],
            Command::Ack => vec![65u8, 67u8, 75u8],
            Command::Begin => vec![66u8, 69u8, 71u8, 73u8, 78u8],
            Command::Commit => vec![67u8, 79u8, 77u8, 77u8, 73u8, 84u8],
            Command::Connect => vec![67u8, 79u8, 78u8, 78u8, 69u8, 67u8, 84u8],
            Command::Disconnect => vec![68u8, 73u8, 83u8, 67u8, 79u8, 78u8, 78u8, 69u8, 67u8, 84u8],
            Command::Nack => vec![78u8, 65u8, 67u8, 75u8],
            Command::Send => vec![83u8, 69u8, 78u8, 68u8],
            Command::Subscribe => vec![83u8, 85u8, 66u8, 83u8, 67u8, 82u8, 73u8, 66u8, 69u8],
            Command::Unsubscribe => vec![85u8, 78u8, 83u8, 85u8, 66u8, 83u8, 67u8, 82u8, 73u8, 66u8, 69u8],
            Command::Connected => vec![67u8, 79u8, 78u8, 78u8, 69u8, 67u8, 84u8, 69u8, 68u8],
            Command::Receipt => vec![82u8, 69u8, 67u8, 69u8, 73u8, 80u8, 84u8],
            Command::Error => vec![69u8, 82u8, 82u8, 79u8, 82u8],
            Command::Message => vec![77u8, 69u8, 83u8, 83u8, 65u8, 71u8, 69u8],
        };
        assert(r@ =~= command_token(*self));
        r
    }

    /// The known headers in declared order, each with whether it is required.
    pub fn schema(&self) -> (r: Vec<(HeaderName, bool)>)
        ensures
            r@ == schema(*self),
    {
        let r = match self {
            Command::Abort => vec![(HeaderName::Transaction, true)],
            Command::Ack => vec![(HeaderName::Id, true), (HeaderName::Transaction, true), (HeaderName::Receipt, false)],
            Command::Begin => vec![(HeaderName::Transaction, true), (HeaderName::Receipt, false)],
            Command::Commit => vec![(HeaderName::Transaction, true), (HeaderName::Receipt, false)],
            Command::Connect => vec![(HeaderName::Host, true), (HeaderName::AcceptVersion, true), (HeaderName::HeartBeat, false), (HeaderName::Login, false), (HeaderName::Passcode, false)],
            Command::Disconnect => vec![(HeaderName::Receipt, true)],
            Command::Nack => vec![(HeaderName::Id, true), (HeaderName::Transaction, true), (HeaderName::Receipt, false)],
            Command::Send => vec![(HeaderName::Destination, true), (HeaderName::ContentType, false), (HeaderName::ContentLength, false), (HeaderName::Transaction, false), (HeaderName::Receipt, false)],
            Command::Subscribe => vec![(HeaderName::Destination, true), (HeaderName::Id, true), (HeaderName::Ack, false), (HeaderName::Receipt, false)],
            Command::Unsubscribe => vec![(HeaderName::Id, true), (HeaderName::Receipt, false)],
            Command::Connected => vec![(HeaderName::Version, true), (HeaderName::HeartBeat, false), (HeaderName::Session, false), (HeaderName::Server, false)],
            Command::Receipt => vec![(HeaderName::ReceiptId, true)],
            Command::Error => vec![],
            Command::Message => vec![(HeaderName::MessageId, true), (HeaderName::Destination, true), (HeaderName::Subscription, true), (HeaderName::ContentType, false), (HeaderName::ContentLength, false)],
        };
        assert(r@ =~= schema(*self));
        r
    }

    /// The command named by a token on the wire.
    pub fn from_token(t: &[u8]) -> (r: Option<Command>)
        ensures
            r == command_lookup(t@),
    {
        let k = vec![65u8, 66u8, 79u8, 82u8, 84u8];
        assert(k@ =~= command_token(Command::Abort));
        if bytes_eq(t, k.as_slice()) {
            return Some(Command::Abort);
        }
        let k = vec![65u8, 67u8, 75u8];
        assert(k@ =~= command_token(Command::Ack));
        if bytes_eq(t, k.as_slice()) {
            return Some(Command::Ack);
        }
        let k = vec![66u8, 69u8, 71u8, 73u8, 78u8];
        assert(k@ =~= command_token(Command::Begin));
        if bytes_eq(t, k.as_slice()) {
            return Some(Command::Begin);
        }
        let k = vec![67u8, 79u8, 77u8, 77u8, 73u8, 84u8];
        assert(k@ =~= command_token(Command::Commit));
        if bytes_eq(t, k.as_slice()) {
            return Some(Command::Commit);
        }
        let k = vec![67u8, 79u8, 78u8, 78u8, 69u8, 67u8, 84u8];
        assert(k@ =~= command_token(Command::Connect));
        if bytes_eq(t, k.as_slice()) {
            return Some(Command::Connect);
        }
        let k = vec![68u8, 73u8, 83u8, 67u8, 79u8, 78u8, 78u8, 69u8, 67u8, 84u8];
        assert(k@ =~= command_token(Command::Disconnect));
        if bytes_eq(t, k.as_slice()) {
            return Some(Command::Disconnect);
        }
        let k = vec![78u8, 65u8, 67u8, 75u8];
        assert(k@ =~= command_token(Command::Nack));
        if bytes_eq(t, k.as_slice()) {
            return Some(Command::Nack);
        }
        let k = vec![83u8, 69u8, 78u8, 68u8];
        assert(k@ =~= command_token(Command::Send));
        if bytes_eq(t, k.as_slice()) {
            return Some(Command::Send);
        }
        let k = vec![83u8, 85u8, 66u8, 83u8, 67u8, 82u8, 73u8, 66u8, 69u8];
        assert(k@ =~= command_token(Command::Subscribe));
        if bytes_eq(t, k.as_slice()) {
            return Some(Command::Subscribe);
        }
        let k = vec![85u8, 78u8, 83u8, 85u8, 66u8, 83u8, 67u8, 82u8, 73u8, 66u8, 69u8];
        assert(k@ =~= command_token(Command::Unsubscribe));
        if bytes_eq(t, k.as_slice()) {
            return Some(Command::Unsubscribe);
        }
        let k = vec![67u8, 79u8, 78u8, 78u8, 69u8, 67u8, 84u8, 69u8, 68u8];
        assert(k@ =~= command_token(Command::Connected));
        if bytes_eq(t, k.as_slice()) {
            return Some(Command::Connected);
        }
        let k = vec![82u8, 69u8, 67u8, 69u8, 73u8, 80u8, 84u8];
        assert(k@ =~= command_token(Command::Receipt));
        if bytes_eq(t, k.as_slice()) {
            return Some(Command::Receipt);
        }
        let k = vec![69u8, 82u8, 82u8, 79u8, 82u8];
        assert(k@ =~= command_token(Command::Error));
        if bytes_eq(t, k.as_slice()) {
            return Some(Command::Error);
        }
        let k = vec![77u8, 69u8, 83u8, 83u8, 65u8, 71u8, 69u8];
        assert(k@ =~= command_token(Command::Message));
        if bytes_eq(t, k.as_slice()) {
            return Some(Command::Message);
        }
        let k = vec![83u8, 84u8, 79u8, 77u8, 80u8];
        assert(k@ =~= stomp_token());
        if bytes_eq(t, k.as_slice()) {
            return Some(Command::Connect);
        }
        None
    }
}

impl HeaderName {
    /// The header's name on the wire.
    pub fn token(&self) -> (r: Vec<u8>)
        ensures
            r@ == header_token(*self),
    {
        let r = match self {
            HeaderName::AcceptVersion => vec![97u8, 99u8, 99u8, 101u8, 112u8, 116u8, 45u8, 118u8, 101u8, 114u8, 115u8, 105u8, 111u8, 110u8],
            HeaderName::Ack => vec![97u8, 99u8, 107u8],
            HeaderName::ContentLength => vec![99u8, 111u8, 110u8, 116u8, 101u8, 110u8, 116u8, 45u8, 108u8, 101u8, 110u8, 103u8, 116u8, 104u8],
            HeaderName::ContentType => vec![99u8, 111u8, 110u8, 116u8, 101u8, 110u8, 116u8, 45u8, 116u8, 121u8, 112u8, 101u8],
            HeaderName::Destination => vec![100u8, 101u8, 115u8, 116u8, 105u8, 110u8, 97u8, 116u8, 105u8, 111u8, 110u8],
            HeaderName::HeartBeat => vec![104u8, 101u8, 97u8, 114u8, 116u8, 45u8, 98u8, 101u8, 97u8, 116u8],
            HeaderName::Host => vec![104u8, 111u8, 115u8, 116u8],
            HeaderName::Id => vec![105u8, 100u8],
            HeaderName::Login => vec![108u8, 111u8, 103u8, 105u8, 110u8],
            HeaderName::MessageId => vec![109u8, 101u8, 115u8, 115u8, 97u8, 103u8, 101u8, 45u8, 105u8, 100u8],
            HeaderName::Passcode => vec![112u8, 97u8, 115u8, 115u8, 99u8, 111u8, 100u8, 101u8],
            HeaderName::Receipt => vec![114u8, 101u8, 99u8, 101u8, 105u8, 112u8, 116u8],
            HeaderName::ReceiptId => vec![114u8, 101u8, 99u8, 101u8, 105u8, 112u8, 116u8, 45u8, 105u8, 100u8],
            HeaderName::Server => vec![115u8, 101u8, 114u8, 118u8, 101u8, 114u8],
            HeaderName::Session => vec![115u8, 101u8, 115u8, 115u8, 105u8, 111u8, 110u8],
            HeaderName::Subscription => vec![115u8, 117u8, 98u8, 115u8, 99u8, 114u8, 105u8, 112u8, 116u8, 105u8, 111u8, 110u8],
            HeaderName::Transaction => vec![116u8, 114u8, 97u8, 110u8, 115u8, 97u8, 99u8, 116u8, 105u8, 111u8, 110u8],
            HeaderName::Version => vec![118u8, 101u8, 114u8, 115u8, 105u8, 111u8, 110u8],
        };
        assert(r@ =~= header_token(*self));
        r
    }
}

/// Byte-wise equality of two slices.
pub fn bytes_eq(a: &[u8], b: &[u8]) -> (r: bool)
    ensures
        r == (a@ == b@),
{
    if a.len() != b.len() {
        return false;
    }
    let mut i: usize = 0;
    while i < a.len()
        invariant
            a@.len() == b@.len(),
            i <= a@.len(),
            forall|k: int| 0 <= k < i ==> a@[k] == b@[k],
        decreases a@.len() - i,
    {
        if a[i] != b[i] {
            return false;
        }
        i = i + 1;
    }
    assert(a@ =~= b@);
    true
}

} // verus!
