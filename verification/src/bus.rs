//! The I2C bus the driver talks through, and the transcript of the transfers
//! made on it.
use vstd::prelude::*;

verus! {

/// One transfer on the bus, as the driver observes it.
#[allow(inconsistent_fields)]
pub ghost enum BusOp<E> {
    /// A write of `bytes` to the device at `address`.
    Write { address: u8, bytes: Seq<u8>, result: Result<(), E> },
    /// A write of `bytes` followed by a read of `read_len` bytes; on success the
    /// result holds exactly the bytes read.
    WriteRead { address: u8, bytes: Seq<u8>, read_len: nat, result: Result<Seq<u8>, E> },
}

/// A blocking I2C master: the write and write-then-read transfers of
/// embedded-hal's `I2c`, with 7-bit addresses.
///
/// The driver keeps its own record of the transfers it asks for and of what
/// each returned (see [`Mpu6050::transcript`](crate::device::Mpu6050::transcript)),
/// so nothing is assumed of an implementation beyond its signature.
pub trait I2cBus {
    type Error;

    /// Writes `bytes` to the device at `address`.
    fn write(&mut self, address: u8, bytes: &[u8]) -> Result<(), Self::Error>;

    /// Writes `bytes` and then reads `buffer.len()` bytes into `buffer` from the
    /// device at `address`, in one transaction.
    fn write_read(&mut self, address: u8, bytes: &[u8], buffer: &mut [u8]) -> Result<
        (),
        Self::Error,
    >;
}

/// The transfer that writes `value` to `register`.
pub open spec fn register_write_op<E>(address: u8, register: u8, value: u8, result: Result<
    (),
    E,
>) -> BusOp<E> {
    BusOp::Write { address, bytes: seq![register, value], result }
}

/// `after` starts with all of `before`.
pub open spec fn extends<E>(before: Seq<BusOp<E>>, after: Seq<BusOp<E>>) -> bool {
    &&& before.len() <= after.len()
    &&& after.subrange(0, before.len() as int) == before
}

/// The transfers of `after` that follow those of `before`.
pub open spec fn appended<E>(before: Seq<BusOp<E>>, after: Seq<BusOp<E>>) -> Seq<BusOp<E>> {
    after.subrange(before.len() as int, after.len() as int)
}

/// `op` reads `len` bytes starting at `register` of the device at `address`.
pub open spec fn is_register_read<E>(op: BusOp<E>, address: u8, register: u8, len: nat) -> bool {
    &&& op matches BusOp::WriteRead { address: a, bytes, read_len, result }
    &&& a == address
    &&& bytes == seq![register]
    &&& read_len == len
    &&& result matches Ok(b) ==> b.len() == len
}

/// The result that a read transfer `op` reported.
pub open spec fn read_result<E>(op: BusOp<E>) -> Result<Seq<u8>, E> {
    match op {
        BusOp::WriteRead { result, .. } => result,
        BusOp::Write { result, .. } => match result {
            Ok(_) => Ok(Seq::empty()),
            Err(e) => Err(e),
        },
    }
}

/// If a transfer appends `op` to `t0` to give `t1`, then `t1` extends `t0` and
/// `op` is all that was appended.
pub proof fn lemma_push_appended<E>(t0: Seq<BusOp<E>>, op: BusOp<E>)
    ensures
        extends(t0, t0.push(op)),
        appended(t0, t0.push(op)) == seq![op],
{
    assert(t0.push(op).subrange(0, t0.len() as int) =~= t0);
    assert(appended(t0, t0.push(op)) =~= seq![op]);
}

/// Extension is transitive, and what is appended in two steps is the
/// concatenation of the two steps.
pub proof fn lemma_extends_trans<E>(t0: Seq<BusOp<E>>, t1: Seq<BusOp<E>>, t2: Seq<BusOp<E>>)
    requires
        extends(t0, t1),
        extends(t1, t2),
    ensures
        extends(t0, t2),
        appended(t0, t2) == appended(t0, t1) + appended(t1, t2),
{
    assert(t2.subrange(0, t0.len() as int) =~= t1.subrange(0, t0.len() as int));
    assert(appended(t0, t2) =~= appended(t0, t1) + appended(t1, t2));
}

} // verus!
