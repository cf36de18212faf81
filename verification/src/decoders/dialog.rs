//! What the decoder settings dialog shows and decides, apart from drawing it.

use vstd::prelude::*;

use super::roles::{Role, RoleBindings};
use super::settings::DecoderSettings;
use crate::text::{decimal, decimal_text};
use crate::wave_container::{VariableRef, VariableRefView};

verus! {

broadcast use vstd::string::to_string_from_display_ensures_for_str;

/// The variables among the displayed items, each once, in the order of its
/// first appearance.
pub open spec fn candidates_spec(items: Seq<Option<VariableRefView>>) -> Seq<VariableRefView>
    decreases items.len(),
{
    if items.len() == 0 {
        Seq::empty()
    } else {
        let rest = candidates_spec(items.drop_last());
        match items.last() {
            Some(v) => if rest.contains(v) {
                rest
            } else {
                rest.push(v)
            },
            None => rest,
        }
    }
}

/// No two candidates are the same variable.
pub proof fn law_candidates_distinct(items: Seq<Option<VariableRefView>>)
    ensures
        ({
            let c = candidates_spec(items);
            forall|i: int, j: int| 0 <= i < j < c.len() ==> c[i] != c[j]
        }),
    decreases items.len(),
{
    if items.len() > 0 {
        law_candidates_distinct(items.drop_last());
        let rest = candidates_spec(items.drop_last());
        let c = candidates_spec(items);
        if let Some(v) = items.last() {
            if !rest.contains(v) {
                assert forall|i: int, j: int| 0 <= i < j < c.len() implies c[i] != c[j] by {
                    assert(c[i] == rest[i]);
                    if j < rest.len() {
                        assert(c[j] == rest[j]);
                    } else {
                        assert(c[j] == v);
                    }
                }
            }
        }
    }
}

pub open spec fn items_view(items: Seq<Option<VariableRef>>) -> Seq<Option<VariableRefView>> {
    items.map_values(|o: Option<VariableRef>| match o {
        Some(v) => Some(v@),
        None => None,
    })
}

/// Every displayed variable, each once, as binding candidates. `items` holds
/// the displayed items in order, `None` for those that are not variables.
pub fn candidate_signals(items: &[Option<VariableRef>]) -> (out: Vec<VariableRef>)
    ensures
        out@.map_values(|v: VariableRef| v@) == candidates_spec(items_view(items@)),
        forall|i: int, j: int| 0 <= i < j < out@.len() ==> out@[i]@ != out@[j]@,
{
    let ghost iv = items_view(items@);
    let mut out: Vec<VariableRef> = Vec::new();
    let mut i: usize = 0;
    assert(iv.take(0) =~= Seq::<Option<VariableRefView>>::empty());
    assert(out@.map_values(|v: VariableRef| v@) =~= Seq::<VariableRefView>::empty());
    while i < items.len()
        invariant
            iv == items_view(items@),
            i <= items@.len(),
            out@.map_values(|v: VariableRef| v@) == candidates_spec(iv.take(i as int)),
        decreases items@.len() - i,
    {
        proof {
            assert(iv.take(i + 1).drop_last() =~= iv.take(i as int));
            assert(iv.take(i + 1).last() == iv[i as int]);
        }
        match &items[i] {
            Some(v) => {
                let ghost ov = out@.map_values(|v: VariableRef| v@);
                let mut seen = false;
                let mut k: usize = 0;
                while k < out.len()
                    invariant
                        k <= out@.len(),
                        ov == out@.map_values(|v: VariableRef| v@),
                        seen == exists|m: int| 0 <= m < k && ov[m] == v@,
                    decreases out@.len() - k,
                {
                    if out[k].same_as(v) {
                        seen = true;
                    }
                    proof {
                        assert(ov[k as int] == out@[k as int]@);
                        if seen {
                            if ov[k as int] == v@ {
                                assert(exists|m: int| 0 <= m < k + 1 && ov[m] == v@);
                            } else {
                                let m = choose|m: int| 0 <= m < k && ov[m] == v@;
                                assert(0 <= m < k + 1 && ov[m] == v@);
                            }
                        }
                    }
                    k = k + 1;
                }
                proof {
                    assert(iv[i as int] == Some(v@));
                    if seen {
                        let m = choose|m: int| 0 <= m < k && ov[m] == v@;
                        assert(ov.contains(v@));
                    } else {
                        assert(!ov.contains(v@));
                    }
                }
                if !seen {
                    let ghost before = out@;
                    out.push(v.clone());
                    assert(out@.map_values(|v: VariableRef| v@) =~= before.map_values(|v: VariableRef| v@).push(
                        iv[i as int]->0,
                    ));
                }
            },
            None => {},
        }
        i = i + 1;
    }
    assert(iv.take(items@.len() as int) =~= iv);
    proof {
        law_candidates_distinct(iv);
        let ov = out@.map_values(|v: VariableRef| v@);
        assert forall|i: int, j: int| 0 <= i < j < out@.len() implies out@[i]@ != out@[j]@ by {
            assert(ov[i] == out@[i]@);
            assert(ov[j] == out@[j]@);
        }
    }
    out
}

/// The label of a role: its name, marked with `*` when it is required.
pub open spec fn role_label_spec(name: Seq<char>, required: bool) -> Seq<char> {
    if required {
        name + " *"@
    } else {
        name
    }
}

pub fn role_label(role: &Role) -> (s: String)
    ensures
        s@ == role_label_spec(role.name@, role.required),
{
    let mut s = role.name.to_string();
    if role.required {
        s.append(" *");
    }
    s
}

/// `names` joined with `, `.
pub open spec fn join_comma(names: Seq<Seq<char>>) -> Seq<char>
    decreases names.len(),
{
    if names.len() == 0 {
        Seq::empty()
    } else if names.len() == 1 {
        names[0]
    } else {
        join_comma(names.drop_last()) + ", "@ + names.last()
    }
}

/// The warning shown while required roles are unbound.
pub open spec fn missing_text_spec(missing: Seq<&'static str>) -> Seq<char> {
    "Not decoding: "@ + join_comma(missing.map_values(|m: &'static str| m@)) + " unset"@
}

pub fn missing_roles_text(missing: &[&'static str]) -> (s: String)
    ensures
        s@ == missing_text_spec(missing@),
{
    let ghost mv = missing@.map_values(|m: &'static str| m@);
    let mut s = "Not decoding: ".to_string();
    let ghost prefix = s@;
    let mut i: usize = 0;
    assert(mv.take(0) =~= Seq::<Seq<char>>::empty());
    while i < missing.len()
        invariant
            mv == missing@.map_values(|m: &'static str| m@),
            i <= missing@.len(),
            s@ == prefix + join_comma(mv.take(i as int)),
        decreases missing@.len() - i,
    {
        proof {
            assert(mv.take(i + 1).drop_last() =~= mv.take(i as int));
            assert(mv.take(i + 1).last() == missing@[i as int]@);
        }
        let ghost before = s@;
        if i > 0 {
            s.append(", ");
        }
        s.append(missing[i]);
        proof {
            if i == 0 {
                assert(mv.take(1).len() == 1);
                assert(s@ =~= prefix + join_comma(mv.take(1)));
            } else {
                assert(s@ =~= prefix + join_comma(mv.take(i + 1)));
            }
        }
        i = i + 1;
    }
    assert(mv.take(missing@.len() as int) =~= mv);
    s.append(" unset");
    s
}

/// The label of SPI mode `m`: its number, then CPOL (bit 1) and CPHA (bit 0).
pub open spec fn spi_mode_label_spec(m: u8) -> Seq<char> {
    decimal(m as nat) + " (CPOL="@ + decimal(((m / 2) % 2) as nat) + ", CPHA="@ + decimal((m % 2) as nat)
        + ")"@
}

pub fn spi_mode_label(m: u8) -> (s: String)
    ensures
        s@ == spi_mode_label_spec(m),
{
    let mut s = decimal_text(m as u64);
    s.append(" (CPOL=");
    s.append(decimal_text(((m >> 1) & 1) as u64).as_str());
    s.append(", CPHA=");
    s.append(decimal_text((m & 1) as u64).as_str());
    s.append(")");
    assert(((m >> 1u8) & 1u8) == (m / 2) % 2) by (bit_vector);
    assert((m & 1u8) == m % 2) by (bit_vector);
    s
}

/// The bit period after the "Measure" box is set to `automatic`: measured, or
/// a manual period seeded with 1000 ticks.
pub fn bit_period_for(automatic: bool) -> (p: Option<u64>)
    ensures
        p == (if automatic { None } else { Some(1000u64) }),
{
    if automatic {
        None
    } else {
        Some(1000)
    }
}

/// Whether the dialog's working copy differs from what the decoder has, so
/// that a change must be sent.
pub fn configuration_changed(
    settings: &DecoderSettings,
    bindings: &RoleBindings,
    current_settings: &DecoderSettings,
    current_bindings: &RoleBindings,
) -> (r: bool)
    ensures
        r == (*settings != *current_settings || bindings@ != current_bindings@),
{
    *settings != *current_settings || !bindings.same_as(current_bindings)
}

} // verus!
