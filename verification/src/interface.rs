//! The transport seam between the driver and the bus, and the byte framing
//! that the I2C transport puts on the wire.
use vstd::prelude::*;

verus! {

/// One call the driver made on its transport.
pub enum Transfer {
    /// `DisplayInterface::command` with this byte.
    Command(u8),
    /// `DisplayInterface::commands` with these bytes.
    Commands(Seq<u8>),
    /// `DisplayInterface::data` with these bytes.
    Data(Seq<u8>),
}

/// `plan`, every transfer of it succeeding.
pub open spec fn succeeded<E>(plan: Seq<Transfer>) -> Seq<(Transfer, Result<(), E>)> {
    Seq::new(plan.len(), |i: int| (plan[i], Ok(())))
}

/// The first `k` transfers of `plan` succeeding, then transfer `k` failing
/// with `e`.
pub open spec fn failed_at<E>(plan: Seq<Transfer>, k: int, e: E) -> Seq<(Transfer, Result<(), E>)> {
    succeeded(plan.take(k)).push((plan[k], Err(e)))
}

/// `after` is `before` followed by `plan` carried out in order and stopped
/// at the first failure: all of it succeeding when `outcome` is `Ok`,
/// otherwise some transfer of it failing with the very error `outcome`
/// carries, after all earlier ones succeeded, and nothing after.
pub open spec fn delivered<E>(
    before: Seq<(Transfer, Result<(), E>)>,
    after: Seq<(Transfer, Result<(), E>)>,
    plan: Seq<Transfer>,
    outcome: Result<(), E>,
) -> bool {
    match outcome {
        Ok(()) => after == before + succeeded(plan),
        Err(e) => exists|k: int| 0 <= k < plan.len() && after == before + #[trigger] failed_at(plan, k, e),
    }
}

/// A transport capable of sending command and data bytes to an SSD1306
/// display. Users implement it for their bus; the I2C and SPI adapters are
/// implementations of it.
///
/// An implementation may model the command bytes the panel has accepted
/// (`sent_commands`) by making `models_commands` true; its `command` and
/// `commands` then keep the clauses below. An implementation that keeps the
/// default `false` promises nothing through them.
pub trait DisplayInterface {
    /// Error type returned by the underlying bus or pins.
    type Error;

    /// Whether this transport models the command bytes it has sent.
    open spec fn models_commands() -> bool {
        false
    }

    /// The command bytes accepted so far, in order, where modelled.
    open spec fn sent_commands(&self) -> Seq<u8> {
        Seq::empty()
    }

    /// Send a single command byte.
    fn command(&mut self, cmd: u8) -> (r: Result<(), Self::Error>)
        ensures
            Self::models_commands() ==> final(self).sent_commands() == if r is Ok {
                old(self).sent_commands().push(cmd)
            } else {
                old(self).sent_commands()
            },
    ;

    /// Send a sequence of command bytes (commands and their parameters),
    /// in order, stopping at the first error. The default sends them one at
    /// a time through `command`; transports override it to batch them into
    /// fewer bus transactions. With no command bytes, the default sends
    /// nothing and succeeds.
    fn commands(&mut self, cmds: &[u8]) -> (r: Result<(), Self::Error>)
        ensures
            Self::models_commands() ==> {
                &&& r is Ok ==> final(self).sent_commands() == old(self).sent_commands() + cmds@
                &&& r is Err ==> exists|k: int|
                    0 <= k < cmds@.len() && final(self).sent_commands() == old(self).sent_commands()
                        + #[trigger] cmds@.take(k)
            },
        default_ensures
            cmds@.len() == 0 ==> r is Ok,
    {
        let mut i: usize = 0;
        assert(cmds@.take(0) =~= Seq::<u8>::empty());
        while i < cmds.len()
            invariant
                i <= cmds.len(),
                Self::models_commands() ==> self.sent_commands() == old(self).sent_commands() + cmds@.take(i as int),
            decreases cmds.len() - i,
        {
            match self.command(cmds[i]) {
                Ok(()) => {},
                Err(e) => {
                    return Err(e);
                },
            }
            assert(cmds@.take(i + 1) =~= cmds@.take(i as int).push(cmds@[i as int]));
            i = i + 1;
        }
        assert(cmds@.take(cmds@.len() as int) =~= cmds@);
        Ok(())
    }

    /// Send a slice of raw display data bytes.
    fn data(&mut self, data: &[u8]) -> Result<(), Self::Error>;
}

/// A transport together with the record of every call made on it through
/// this link, each with its result. The record changes only where a call is
/// made, by exactly that call and what it returned.
pub struct Link<I: DisplayInterface> {
    transport: I,
    log: Ghost<Seq<(Transfer, Result<(), I::Error>)>>,
}

impl<I: DisplayInterface> Link<I> {
    /// Every call made through this link, in order, with its result.
    pub closed spec fn history(&self) -> Seq<(Transfer, Result<(), I::Error>)> {
        self.log@
    }

    /// The transport.
    pub closed spec fn transport(&self) -> I {
        self.transport
    }

    /// A link over `transport` through which nothing has been sent yet.
    pub fn new(transport: I) -> (link: Self)
        ensures
            link.transport() == transport,
            link.history() == Seq::<(Transfer, Result<(), I::Error>)>::empty(),
    {
        Link { transport, log: Ghost(Seq::empty()) }
    }

    /// Give the transport back.
    pub fn into_inner(self) -> (transport: I)
        ensures
            transport == self.transport(),
    {
        self.transport
    }

    /// Hand `cmd` to the transport's `command`.
    pub fn command(&mut self, cmd: u8) -> (r: Result<(), I::Error>)
        ensures
            final(self).history() == old(self).history().push((Transfer::Command(cmd), r)),
    {
        let r = self.transport.command(cmd);
        proof {
            self.log@ = self.log@.push((Transfer::Command(cmd), r));
        }
        r
    }

    /// Hand `cmds` to the transport's `commands`.
    pub fn commands(&mut self, cmds: &[u8]) -> (r: Result<(), I::Error>)
        ensures
            final(self).history() == old(self).history().push((Transfer::Commands(cmds@), r)),
    {
        let r = self.transport.commands(cmds);
        proof {
            self.log@ = self.log@.push((Transfer::Commands(cmds@), r));
        }
        r
    }

    /// Hand `data` to the transport's `data`.
    pub fn data(&mut self, data: &[u8]) -> (r: Result<(), I::Error>)
        ensures
            final(self).history() == old(self).history().push((Transfer::Data(data@), r)),
    {
        let r = self.transport.data(data);
        proof {
            self.log@ = self.log@.push((Transfer::Data(data@), r));
        }
        r
    }
}

/// Maximum payload bytes per I2C write (excluding the control byte).
pub const I2C_CHUNK_SIZE: usize = 128;

/// I2C control byte announcing command bytes (Co = 0, D/C = 0).
pub const I2C_CONTROL_COMMAND: u8 = 0x00;

/// I2C control byte announcing display data (Co = 0, D/C = 1).
pub const I2C_CONTROL_DATA: u8 = 0x40;

/// Number of I2C writes needed for a payload of `n` bytes.
pub open spec fn chunk_count(n: nat) -> nat {
    if n == 0 {
        0
    } else {
        ((n - 1) as nat) / (I2C_CHUNK_SIZE as nat) + 1
    }
}

/// The `i`-th payload chunk of `bytes`: at most `I2C_CHUNK_SIZE` bytes,
/// taken in order.
pub open spec fn chunk(bytes: Seq<u8>, i: int) -> Seq<u8> {
    let start: int = i * I2C_CHUNK_SIZE as int;
    let end: int = if start + I2C_CHUNK_SIZE as int <= bytes.len() {
        start + I2C_CHUNK_SIZE as int
    } else {
        bytes.len() as int
    };
    bytes.subrange(start, end)
}

/// The `i`-th I2C write for `bytes`: the control byte, then the chunk.
pub open spec fn i2c_frame(control: u8, bytes: Seq<u8>, i: int) -> Seq<u8> {
    seq![control] + chunk(bytes, i)
}

/// The chunks `0..k` of `bytes`, joined back together.
pub open spec fn joined_chunks(bytes: Seq<u8>, k: nat) -> Seq<u8>
    decreases k,
{
    if k == 0 {
        Seq::empty()
    } else {
        joined_chunks(bytes, (k - 1) as nat) + chunk(bytes, k - 1)
    }
}

/// The I2C write that carries the single command byte `cmd`.
pub fn i2c_command_frame(cmd: u8) -> (frame: Vec<u8>)
    ensures
        frame@ == seq![I2C_CONTROL_COMMAND, cmd],
{
    vec![I2C_CONTROL_COMMAND, cmd]
}

/// The I2C writes that carry `bytes`: chunks of up to `I2C_CHUNK_SIZE` bytes,
/// each prefixed with `control`. With Co = 0 the controller treats everything
/// after the control byte as a stream, so a chunk may hold several commands
/// (or split a command from its parameters) without changing the result.
pub fn i2c_frames(control: u8, bytes: &[u8]) -> (frames: Vec<Vec<u8>>)
    ensures
        frames@.len() == chunk_count(bytes@.len()),
        forall|i: int| 0 <= i < frames@.len() ==> #[trigger] frames@[i]@ == i2c_frame(control, bytes@, i),
{
    let n: usize = bytes.len();
    let mut frames: Vec<Vec<u8>> = Vec::new();
    let mut start: usize = 0;
    while start < n
        invariant
            n == bytes@.len(),
            start <= n,
            start < n ==> start == frames@.len() * I2C_CHUNK_SIZE,
            frames@.len() == chunk_count(start as nat),
            forall|i: int| 0 <= i < frames@.len() ==> #[trigger] frames@[i]@ == i2c_frame(control, bytes@, i),
        decreases n - start,
    {
        assert(start == frames@.len() * I2C_CHUNK_SIZE);
        let end: usize = if n - start >= I2C_CHUNK_SIZE {
            start + I2C_CHUNK_SIZE
        } else {
            n
        };
        let mut frame: Vec<u8> = Vec::new();
        frame.push(control);
        let mut j: usize = start;
        while j < end
            invariant
                start <= j <= end <= n,
                n == bytes@.len(),
                frame@ == seq![control] + bytes@.subrange(start as int, j as int),
            decreases end - j,
        {
            frame.push(bytes[j]);
            proof {
                assert(bytes@.subrange(start as int, j + 1) == bytes@.subrange(start as int, j as int).push(bytes@[j as int]));
            }
            j = j + 1;
        }
        proof {
            let k: int = frames@.len() as int;
            assert(frame@ == i2c_frame(control, bytes@, k));
            assert(chunk_count(end as nat) == chunk_count(start as nat) + 1) by {
                assert(start as nat == k * 128);
                if k > 0 {
                    assert(((start - 1) as nat) / 128 == (k - 1) as nat) by (nonlinear_arith)
                        requires start as int == k * 128, k > 0;
                }
                assert(((end - 1) as nat) / 128 == k as nat) by (nonlinear_arith)
                    requires start as int == k * 128, start < end, end <= start + 128;
            }
        }
        frames.push(frame);
        start = end;
        if start < n {
            proof {
                assert(start == frames@.len() * I2C_CHUNK_SIZE) by (nonlinear_arith)
                    requires start == (frames@.len() - 1) * 128 + 128;
            }
        }
    }
    frames
}


proof fn lemma_joined_prefix(bytes: Seq<u8>, k: nat)
    requires
        k * I2C_CHUNK_SIZE <= bytes.len(),
    ensures
        joined_chunks(bytes, k) == bytes.take(k * I2C_CHUNK_SIZE as int),
    decreases k,
{
    if k > 0 {
        let km: nat = (k - 1) as nat;
        assert(km * 128 + 128 == k * 128) by (nonlinear_arith)
            requires km == k - 1;
        lemma_joined_prefix(bytes, km);
        let a: int = (km * 128) as int;
        let b: int = (k * 128) as int;
        assert(chunk(bytes, km as int) == bytes.subrange(a, b));
        assert(bytes.take(a) + bytes.subrange(a, b) =~= bytes.take(b));
    } else {
        assert(bytes.take(0) =~= Seq::<u8>::empty());
    }
}

/// The payloads of the I2C writes for `bytes`, joined in order, are `bytes`
/// again; each carries between 1 and `I2C_CHUNK_SIZE` bytes, and all but the
/// last carry a full `I2C_CHUNK_SIZE`.
pub proof fn lemma_chunks_rejoin(bytes: Seq<u8>)
    ensures
        joined_chunks(bytes, chunk_count(bytes.len())) == bytes,
        forall|i: int| 0 <= i < chunk_count(bytes.len()) ==> 1 <= #[trigger] chunk(bytes, i).len() <= I2C_CHUNK_SIZE,
        forall|i: int| 0 <= i < chunk_count(bytes.len()) - 1 ==> #[trigger] chunk(bytes, i).len() == I2C_CHUNK_SIZE,
{
    let n: nat = bytes.len();
    if n == 0 {
        assert(joined_chunks(bytes, 0) =~= bytes);
    } else {
        let c: nat = chunk_count(n);
        let last: nat = (c - 1) as nat;
        assert(last * 128 < n && n <= last * 128 + 128) by (nonlinear_arith)
            requires last == (n - 1) as nat / 128, n > 0;
        lemma_joined_prefix(bytes, last);
        assert(joined_chunks(bytes, c) =~= bytes);
        assert forall|i: int| 0 <= i < c implies 1 <= #[trigger] chunk(bytes, i).len() <= I2C_CHUNK_SIZE by {
            assert(i * 128 < n) by (nonlinear_arith)
                requires 0 <= i <= last, last * 128 < n;
        }
        assert forall|i: int| 0 <= i < c - 1 implies #[trigger] chunk(bytes, i).len() == I2C_CHUNK_SIZE by {
            assert(i * 128 + 128 <= n) by (nonlinear_arith)
                requires 0 <= i < last, last * 128 < n;
        }
    }
}

} // verus!
