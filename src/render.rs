use crate::split::{BuildingSplit, Owner, OwnerKind};
use vstd::prelude::*;
use vstd::string::StringExecFns;

verus! {

pub open spec fn digit_char(d: nat) -> char {
    if d == 0 {
        '0'
    } else if d == 1 {
        '1'
    } else if d == 2 {
        '2'
    } else if d == 3 {
        '3'
    } else if d == 4 {
        '4'
    } else if d == 5 {
        '5'
    } else if d == 6 {
        '6'
    } else if d == 7 {
        '7'
    } else if d == 8 {
        '8'
    } else {
        '9'
    }
}

/// `n` written in decimal, without leading zeros.
pub open spec fn decimal_text(n: nat) -> Seq<char>
    decreases n,
{
    if n < 10 {
        seq![digit_char(n)]
    } else {
        decimal_text(n / 10).push(digit_char(n % 10))
    }
}

/// One owner inside an `add_ownership` block.
pub open spec fn owner_text(o: Owner) -> Seq<char> {
    match o.kind {
        OwnerKind::Building { building_type, region } => "\t\t\t\t\tbuilding = {\n\t\t\t\t\t\ttype = \""@
            + building_type@ + "\"\n\t\t\t\t\t\tcountry = \""@ + o.country@
            + "\"\n\t\t\t\t\t\tlevels = "@ + decimal_text(o.levels as nat)
            + "\n\t\t\t\t\t\tregion = \""@ + region@ + "\"\n\t\t\t\t\t}\n"@,
        OwnerKind::Country => "\t\t\t\t\tcountry = {\n\t\t\t\t\t\tcountry = \""@ + o.country@
            + "\"\n\t\t\t\t\t\tlevels = "@ + decimal_text(o.levels as nat) + "\n\t\t\t\t\t}\n"@,
    }
}

pub open spec fn owners_text(owners: Seq<Owner>) -> Seq<char>
    decreases owners.len(),
{
    if owners.len() == 0 {
        Seq::empty()
    } else {
        owners_text(owners.drop_last()) + owner_text(owners.last())
    }
}

/// The lines that replace a split building at its location: the removal,
/// the reduced original, then the target building with the reserves.
pub open spec fn split_text(s: BuildingSplit) -> Seq<char> {
    "\t\t\tremove_building = "@ + s.original_type@ + "\n"@
        + "\t\t\tcreate_building = {\n\t\t\t\tbuilding = \""@ + s.original_type@
        + "\"\n\t\t\t\tadd_ownership = {\n"@ + owners_text(s.reduced_owners@)
        + "\t\t\t\t}\n\t\t\t}\n"@
        + "\t\t\tcreate_building = {\n\t\t\t\tbuilding = \""@ + s.target_type@
        + "\"\n\t\t\t\tadd_ownership = {\n"@ + owners_text(s.target_owners@)
        + "\t\t\t\t}\n\t\t\t\treserves = "@ + s.reserves@ + "\n\t\t\t}\n"@
}

fn digit_str(d: u32) -> (r: &'static str)
    requires
        d < 10,
    ensures
        r@ == seq![digit_char(d as nat)],
{
    proof {
        reveal_strlit("0");
        reveal_strlit("1");
        reveal_strlit("2");
        reveal_strlit("3");
        reveal_strlit("4");
        reveal_strlit("5");
        reveal_strlit("6");
        reveal_strlit("7");
        reveal_strlit("8");
        reveal_strlit("9");
    }
    if d == 0 {
        "0"
    } else if d == 1 {
        "1"
    } else if d == 2 {
        "2"
    } else if d == 3 {
        "3"
    } else if d == 4 {
        "4"
    } else if d == 5 {
        "5"
    } else if d == 6 {
        "6"
    } else if d == 7 {
        "7"
    } else if d == 8 {
        "8"
    } else {
        "9"
    }
}

/// Appends `n` in decimal.
fn append_decimal(out: &mut String, n: u32)
    ensures
        final(out)@ == old(out)@ + decimal_text(n as nat),
    decreases n,
{
    if n >= 10 {
        append_decimal(out, n / 10);
    }
    out.append(digit_str(n % 10));
    proof {
        if n >= 10 {
            assert(decimal_text(n as nat) == decimal_text((n / 10) as nat).push(
                digit_char((n % 10) as nat),
            ));
        }
    }
    assert(final(out)@ =~= old(out)@ + decimal_text(n as nat));
}

fn append_owner(out: &mut String, o: &Owner)
    ensures
        final(out)@ == old(out)@ + owner_text(*o),
{
    match &o.kind {
        OwnerKind::Building { building_type, region } => {
            out.append("\t\t\t\t\tbuilding = {\n\t\t\t\t\t\ttype = \"");
            out.append(building_type.as_str());
            out.append("\"\n\t\t\t\t\t\tcountry = \"");
            out.append(o.country.as_str());
            out.append("\"\n\t\t\t\t\t\tlevels = ");
            append_decimal(out, o.levels);
            out.append("\n\t\t\t\t\t\tregion = \"");
            out.append(region.as_str());
            out.append("\"\n\t\t\t\t\t}\n");
        },
        OwnerKind::Country => {
            out.append("\t\t\t\t\tcountry = {\n\t\t\t\t\t\tcountry = \"");
            out.append(o.country.as_str());
            out.append("\"\n\t\t\t\t\t\tlevels = ");
            append_decimal(out, o.levels);
            out.append("\n\t\t\t\t\t}\n");
        },
    }
    assert(final(out)@ =~= old(out)@ + owner_text(*o));
}

fn append_owners(out: &mut String, owners: &Vec<Owner>)
    ensures
        final(out)@ == old(out)@ + owners_text(owners@),
{
    let ghost start = out@;
    let mut i: usize = 0;
    assert(owners@.take(0) =~= Seq::<Owner>::empty());
    assert(out@ =~= start + owners_text(owners@.take(0)));
    while i < owners.len()
        invariant
            0 <= i <= owners@.len(),
            out@ == start + owners_text(owners@.take(i as int)),
        decreases owners@.len() - i,
    {
        append_owner(out, &owners[i]);
        assert(owners@.take(i + 1).drop_last() =~= owners@.take(i as int));
        i += 1;
        assert(out@ =~= start + owners_text(owners@.take(i as int)));
    }
    assert(owners@.take(i as int) =~= owners@);
}

/// Writes out a split as game script.
pub fn render_split(s: &BuildingSplit) -> (r: String)
    ensures
        r@ == split_text(*s),
{
    let mut out = String::new();
    out.append("\t\t\tremove_building = ");
    out.append(s.original_type.as_str());
    out.append("\n");
    out.append("\t\t\tcreate_building = {\n\t\t\t\tbuilding = \"");
    out.append(s.original_type.as_str());
    out.append("\"\n\t\t\t\tadd_ownership = {\n");
    append_owners(&mut out, &s.reduced_owners);
    out.append("\t\t\t\t}\n\t\t\t}\n");
    out.append("\t\t\tcreate_building = {\n\t\t\t\tbuilding = \"");
    out.append(s.target_type.as_str());
    out.append("\"\n\t\t\t\tadd_ownership = {\n");
    append_owners(&mut out, &s.target_owners);
    out.append("\t\t\t\t}\n\t\t\t\treserves = ");
    out.append(s.reserves.as_str());
    out.append("\n\t\t\t}\n");
    assert(out@ =~= split_text(*s));
    out
}

} // verus!
