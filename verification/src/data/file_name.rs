//! How segment files are named: the id in ten decimal digits, zeros in
//! front, then `.data`. Names are bytes here; all of them are ASCII.

use vstd::prelude::*;

verus! {

/// Number of digits in a name: as many as the largest id has.
pub const ID_DIGITS: usize = 10;

/// Length of a name.
pub const DATA_FILE_NAME_LEN: usize = 15;

/// The digit `0`.
pub const ZERO: u8 = 0x30;

/// What follows the digits: `.data`.
pub open spec fn spec_suffix() -> Seq<u8> {
    seq![0x2e, 0x64, 0x61, 0x74, 0x61]
}

/// 10 to the power `k`.
pub open spec fn spec_pow10(k: nat) -> nat
    decreases k,
{
    if k == 0 {
        1
    } else {
        10 * spec_pow10((k - 1) as nat)
    }
}

/// The last `width` decimal digits of `n`, the most significant first.
pub open spec fn spec_digits(n: nat, width: nat) -> Seq<u8>
    decreases width,
{
    if width == 0 {
        Seq::empty()
    } else {
        spec_digits(n / 10, (width - 1) as nat).push((ZERO + n % 10) as u8)
    }
}

/// The name of the file of segment `file_id`.
pub open spec fn spec_data_file_name(file_id: u32) -> Seq<u8> {
    spec_digits(file_id as nat, ID_DIGITS as nat) + spec_suffix()
}

/// The id of the segment whose file has the name `name`, if there is one.
pub open spec fn spec_parse_data_file_name(name: Seq<u8>) -> Option<u32> {
    if exists|id: u32| spec_data_file_name(id) == name {
        Some(choose|id: u32| spec_data_file_name(id) == name)
    } else {
        None
    }
}

/// There are `width` digits, each between `0` and `9`.
pub proof fn lemma_digits_shape(n: nat, width: nat)
    ensures
        spec_digits(n, width).len() == width,
        forall|i: int| 0 <= i < width ==> ZERO <= #[trigger] spec_digits(n, width)[i] <= ZERO + 9,
    decreases width,
{
    if width > 0 {
        lemma_digits_shape(n / 10, (width - 1) as nat);
    }
}

/// A number with at most `width` digits is known by them.
pub proof fn lemma_digits_injective(a: nat, b: nat, width: nat)
    requires
        a < spec_pow10(width),
        b < spec_pow10(width),
        spec_digits(a, width) == spec_digits(b, width),
    ensures
        a == b,
    decreases width,
{
    if width > 0 {
        let da = spec_digits(a / 10, (width - 1) as nat);
        let db = spec_digits(b / 10, (width - 1) as nat);
        lemma_digits_shape(a / 10, (width - 1) as nat);
        lemma_digits_shape(b / 10, (width - 1) as nat);
        assert(da.push((ZERO + a % 10) as u8).last() == db.push((ZERO + b % 10) as u8).last());
        assert(da =~= da.push((ZERO + a % 10) as u8).drop_last());
        assert(db =~= db.push((ZERO + b % 10) as u8).drop_last());
        lemma_digits_injective(a / 10, b / 10, (width - 1) as nat);
    }
}

/// Every id has ten digits at most.
proof fn lemma_id_digits()
    ensures
        spec_pow10(10) == 10_000_000_000,
        u32::MAX < spec_pow10(10),
{
    reveal_with_fuel(spec_pow10, 11);
}

/// Law: no two segments have the same file name, and the name of a segment
/// is read back as its id.
pub proof fn lemma_parse_of_name(file_id: u32)
    ensures
        spec_parse_data_file_name(spec_data_file_name(file_id)) == Some(file_id),
        spec_data_file_name(file_id).len() == DATA_FILE_NAME_LEN,
{
    let name = spec_data_file_name(file_id);
    let other = choose|id: u32| spec_data_file_name(id) == name;
    lemma_names_differ(file_id, other);
    lemma_digits_shape(file_id as nat, ID_DIGITS as nat);
}

/// Two ids with one name are one id.
pub proof fn lemma_names_differ(a: u32, b: u32)
    requires
        spec_data_file_name(a) == spec_data_file_name(b),
    ensures
        a == b,
{
    let da = spec_digits(a as nat, ID_DIGITS as nat);
    let db = spec_digits(b as nat, ID_DIGITS as nat);
    lemma_digits_shape(a as nat, ID_DIGITS as nat);
    lemma_digits_shape(b as nat, ID_DIGITS as nat);
    assert(da =~= spec_data_file_name(a).subrange(0, ID_DIGITS as int));
    assert(db =~= spec_data_file_name(b).subrange(0, ID_DIGITS as int));
    lemma_id_digits();
    lemma_digits_injective(a as nat, b as nat, ID_DIGITS as nat);
}

/// The name of the file of segment `file_id`.
pub fn data_file_name(file_id: u32) -> (name: Vec<u8>)
    ensures
        name@ == spec_data_file_name(file_id),
{
    let mut name: Vec<u8> = vec![ZERO; ID_DIGITS];
    let mut rest: u32 = file_id;
    let mut i: usize = ID_DIGITS;
    proof {
        assert(name@.subrange(ID_DIGITS as int, ID_DIGITS as int) =~= Seq::<u8>::empty());
        assert(spec_digits(rest as nat, i as nat) + Seq::<u8>::empty() =~= spec_digits(
            rest as nat,
            i as nat,
        ));
    }
    while i > 0
        invariant
            i <= ID_DIGITS,
            name@.len() == ID_DIGITS,
            spec_digits(file_id as nat, ID_DIGITS as nat) == spec_digits(rest as nat, i as nat)
                + name@.subrange(i as int, ID_DIGITS as int),
        decreases i,
    {
        let digit: u8 = ZERO + (rest % 10) as u8;
        let ghost before = name@;
        i = i - 1;
        name[i] = digit;
        proof {
            assert(name@.subrange(i as int, ID_DIGITS as int) =~= seq![digit] + before.subrange(
                i + 1,
                ID_DIGITS as int,
            ));
            assert(spec_digits((rest / 10) as nat, i as nat).push(digit) + before.subrange(
                i + 1,
                ID_DIGITS as int,
            ) =~= spec_digits((rest / 10) as nat, i as nat) + (seq![digit] + before.subrange(
                i + 1,
                ID_DIGITS as int,
            )));
        }
        rest = rest / 10;
    }
    proof {
        assert(name@.subrange(0, ID_DIGITS as int) =~= name@);
        assert(spec_digits(rest as nat, 0) + name@ =~= name@);
    }
    let ghost digits = name@;
    name.push(0x2e);
    name.push(0x64);
    name.push(0x61);
    name.push(0x74);
    name.push(0x61);
    proof {
        assert(name@ =~= digits + spec_suffix());
    }
    name
}

/// Reads the id of a segment from the name of its file. A name of any other
/// shape, with a digit too few or a space in front, is not a segment's.
pub fn parse_data_file_name(name: &[u8]) -> (res: Option<u32>)
    ensures
        res == spec_parse_data_file_name(name@),
{
    proof {
        assert forall|id: u32| #[trigger] spec_data_file_name(id).len() == DATA_FILE_NAME_LEN by {
            lemma_digits_shape(id as nat, ID_DIGITS as nat);
        }
        assert forall|id: u32, k: int|
            0 <= k < ID_DIGITS implies ZERO <= #[trigger] spec_data_file_name(id)[k] <= ZERO + 9 by {
            lemma_digits_shape(id as nat, ID_DIGITS as nat);
            assert(spec_data_file_name(id)[k] == spec_digits(id as nat, ID_DIGITS as nat)[k]);
        }
        assert forall|id: u32, k: int| 0 <= k < 5 implies #[trigger] spec_data_file_name(id)[ID_DIGITS
            + k] == spec_suffix()[k] by {
            lemma_digits_shape(id as nat, ID_DIGITS as nat);
        }
    }
    if name.len() != DATA_FILE_NAME_LEN {
        return None;
    }
    if name[10] != 0x2e || name[11] != 0x64 || name[12] != 0x61 || name[13] != 0x74
        || name[14] != 0x61 {
        proof {
            assert forall|id: u32| spec_data_file_name(id) != name@ by {
                assert(spec_data_file_name(id)[ID_DIGITS + 0] == spec_suffix()[0]);
                assert(spec_data_file_name(id)[ID_DIGITS + 1] == spec_suffix()[1]);
                assert(spec_data_file_name(id)[ID_DIGITS + 2] == spec_suffix()[2]);
                assert(spec_data_file_name(id)[ID_DIGITS + 3] == spec_suffix()[3]);
                assert(spec_data_file_name(id)[ID_DIGITS + 4] == spec_suffix()[4]);
            }
        }
        return None;
    }
    let mut value: u64 = 0;
    let mut i: usize = 0;
    proof {
        assert(name@.subrange(0, 0) =~= spec_digits(0, 0));
        lemma_id_digits();
        assert(spec_pow10(0) == 1);
    }
    while i < ID_DIGITS
        invariant
            i <= ID_DIGITS,
            name@.len() == DATA_FILE_NAME_LEN,
            value < spec_pow10(i as nat) <= spec_pow10(10),
            spec_pow10(10) == 10_000_000_000,
            name@.subrange(0, i as int) == spec_digits(value as nat, i as nat),
            forall|id: u32| #[trigger] spec_data_file_name(id).len() == DATA_FILE_NAME_LEN,
            forall|id: u32, k: int|
                0 <= k < ID_DIGITS ==> ZERO <= #[trigger] spec_data_file_name(id)[k] <= ZERO + 9,
        decreases ID_DIGITS - i,
    {
        proof {
            lemma_id_digits();
        }
        let byte: u8 = name[i];
        if byte < ZERO || byte > ZERO + 9 {
            proof {
                assert forall|id: u32| spec_data_file_name(id) != name@ by {
                    assert(ZERO <= spec_data_file_name(id)[i as int] <= ZERO + 9);
                }
            }
            return None;
        }
        let digit: u64 = (byte - ZERO) as u64;
        proof {
            let next = value * 10 + digit;
            assert(next / 10 == value && next % 10 == digit);
            assert(name@.subrange(0, i + 1) =~= name@.subrange(0, i as int).push(byte));
            lemma_pow10_grows(i as nat);
        }
        value = value * 10 + digit;
        i = i + 1;
    }
    proof {
        lemma_id_digits();
        assert(name@ =~= name@.subrange(0, ID_DIGITS as int) + spec_suffix());
    }
    if value > u32::MAX as u64 {
        proof {
            assert forall|id: u32| spec_data_file_name(id) != name@ by {
                if spec_data_file_name(id) == name@ {
                    lemma_digits_shape(id as nat, ID_DIGITS as nat);
                    assert(spec_digits(id as nat, ID_DIGITS as nat) =~= spec_data_file_name(
                        id,
                    ).subrange(0, ID_DIGITS as int));
                    lemma_digits_injective(id as nat, value as nat, ID_DIGITS as nat);
                }
            }
        }
        return None;
    }
    proof {
        assert(spec_data_file_name(value as u32) == name@);
        lemma_parse_of_name(value as u32);
    }
    Some(value as u32)
}

/// Ten times a power of ten is the next one, and no power of ten above the
/// tenth is needed here.
proof fn lemma_pow10_grows(k: nat)
    requires
        k < 10,
    ensures
        spec_pow10(k + 1) == 10 * spec_pow10(k),
        spec_pow10(k + 1) <= spec_pow10(10),
    decreases 10 - k,
{
    if k + 1 < 10 {
        lemma_pow10_grows(k + 1);
    }
}

} // verus!
