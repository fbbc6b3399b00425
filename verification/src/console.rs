//! The console: the bytes the UART transmits and receives.
use vstd::prelude::*;
use vstd::string::StringSliceAdditionalSpecFns;

verus! {

/// The bytes that `s` becomes on the wire: each `\n` is preceded by `\r`.
pub open spec fn crlf(s: Seq<u8>) -> Seq<u8>
    decreases s.len(),
{
    if s.len() == 0 {
        Seq::empty()
    } else {
        crlf(s.drop_last()) + if s.last() == 10u8 {
            seq![13u8, 10u8]
        } else {
            seq![s.last()]
        }
    }
}

/// Sends `s` to the transmit queue `tx`, turning `\n` into `\r\n`.
pub fn puts(tx: &mut Vec<u8>, s: &str)
    ensures
        final(tx)@ == old(tx)@ + crlf(s.spec_bytes()),
{
    let bytes = s.as_bytes();
    let mut i: usize = 0;
    while i < bytes.len()
        invariant
            i <= bytes@.len(),
            bytes@ == s.spec_bytes(),
            tx@ == old(tx)@ + crlf(bytes@.subrange(0, i as int)),
        decreases bytes@.len() - i,
    {
        let c = bytes[i];
        if c == 10u8 {
            putchar(tx, 13u8);
        }
        putchar(tx, c);
        proof {
            let pre = bytes@.subrange(0, i as int);
            let next = bytes@.subrange(0, i + 1);
            assert(next.drop_last() =~= pre);
            assert(next.last() == c);
        }
        i = i + 1;
    }
    assert(bytes@.subrange(0, bytes@.len() as int) =~= bytes@);
}

/// Takes the next received byte from the receive queue `rx` (the UART's
/// receive buffer; the caller waits until it holds a byte).
pub fn read_char(rx: &mut Vec<u8>) -> (c: u8)
    requires
        old(rx)@.len() > 0,
    ensures
        c == old(rx)@[0],
        final(rx)@ == old(rx)@.drop_first(),
{
    let c = rx.remove(0);
    assert(rx@ =~= old(rx)@.drop_first());
    c
}

/// Sends one byte.
pub fn putchar(tx: &mut Vec<u8>, c: u8)
    ensures
        final(tx)@ == old(tx)@.push(c),
{
    tx.push(c);
}

} // verus!
