//! Small computations around the agent's edges: the machine identity string
//! derived from a platform identifier record, the shell invocation built for
//! a command, and the exit-code default.

use vstd::prelude::*;

use crate::codec::hex_char;
use crate::codec::is_lower_hex;

verus! {

/// The lowercase hexadecimal rendering of a byte string: two digits per
/// byte, high nibble first.
pub open spec fn lower_hex_of(bytes: Seq<u8>) -> Seq<char>
    decreases bytes.len(),
{
    if bytes.len() == 0 {
        Seq::empty()
    } else {
        lower_hex_of(bytes.drop_last()).push(hex_char(bytes.last() as int / 16)).push(
            hex_char(bytes.last() as int % 16),
        )
    }
}

/// The hexadecimal rendering is twice as long as the bytes and made of
/// lowercase hexadecimal digits.
pub proof fn lemma_lower_hex_shape(bytes: Seq<u8>)
    ensures
        lower_hex_of(bytes).len() == 2 * bytes.len(),
        forall|k: int| 0 <= k < lower_hex_of(bytes).len() ==> is_lower_hex(
            #[trigger] lower_hex_of(bytes)[k],
        ),
    decreases bytes.len(),
{
    if bytes.len() > 0 {
        lemma_lower_hex_shape(bytes.drop_last());
        crate::codec::lemma_hex_char_of(bytes.last() as int / 16);
        crate::codec::lemma_hex_char_of(bytes.last() as int % 16);
    }
}

/// The byte length of the platform identifier record the identity is read
/// from.
pub const ID_RECORD_LEN: usize = 24;

/// The machine identity derived from a 24-byte platform identifier record:
/// bytes 8 through 23 rendered as 32 lowercase hexadecimal characters.
pub fn machine_id_from_record(record: &Vec<u8>) -> (r: String)
    requires
        record@.len() == ID_RECORD_LEN,
    ensures
        r@ == lower_hex_of(record@.subrange(8, 24)),
        r@.len() == 32,
{
    let mut out: Vec<char> = Vec::new();
    let mut k: usize = 8;
    while k < 24
        invariant
            8 <= k <= 24,
            record@.len() == 24,
            out@ == lower_hex_of(record@.subrange(8, k as int)),
        decreases 24 - k,
    {
        let b = record[k];
        let hi: u8 = b / 16;
        let lo: u8 = b % 16;
        out.push(if hi < 10 { (48 + hi) as char } else { (87 + hi) as char });
        out.push(if lo < 10 { (48 + lo) as char } else { (87 + lo) as char });
        proof {
            assert(record@.subrange(8, k + 1).drop_last() =~= record@.subrange(8, k as int));
            assert(record@.subrange(8, k + 1).last() == b);
        }
        k = k + 1;
    }
    proof {
        lemma_lower_hex_shape(record@.subrange(8, 24));
    }
    crate::codec::string_from_chars(out)
}

/// The program and arguments that run `cmd` through the shell: `sh -c cmd`.
pub fn shell_invocation(cmd: &str) -> (r: (String, Vec<String>))
    ensures
        r.0@ == "sh"@,
        r.1@.len() == 2,
        r.1@[0]@ == "-c"@,
        r.1@[1]@ == cmd@,
{
    let mut args: Vec<String> = Vec::new();
    args.push("-c".to_owned());
    args.push(cmd.to_owned());
    ("sh".to_owned(), args)
}

/// The exit code reported for a finished process: its own code, or `-1`
/// where the platform reports none.
pub fn exit_code_or_default(code: Option<i32>) -> (r: i32)
    ensures
        match code {
            Option::Some(c) => r == c,
            Option::None => r == -1,
        },
{
    match code {
        Some(c) => c,
        None => -1,
    }
}

} // verus!
