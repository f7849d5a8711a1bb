//! What the `Component` derive generates for a component enum, computed from
//! the enum's variants: the name and value of each type flag constant, which
//! variants are markers and which variants get a `From` conversion.
//!
//! Reading the enum's tokens and printing the generated impls is left to the
//! macro; the decisions are made here.
use vstd::arithmetic::power2::{lemma_pow2_unfold, pow2};
use vstd::prelude::*;
use vstd::utf8::encode_utf8;

verus! {

/// One variant of a component enum, as the derive reads it.
pub struct ComponentVariant {
    /// The variant's identifier.
    pub name: String,
    /// The tokens of the variant's unnamed fields, if it has unnamed fields.
    pub value_type: Option<String>,
    /// The variant has no fields (a marker component).
    pub marker: bool,
}

/// A type flag constant: `pub const <name>: u32 = <value>;`.
pub struct FlagConstant {
    pub name: String,
    pub value: u32,
}

/// What `str::to_uppercase` returns for a string.
pub uninterp spec fn uppercase(s: Seq<char>) -> Seq<char>;

/// `str::to_uppercase`: the upper-case form of `s`.
#[verifier::external_body]
fn to_uppercase(s: &str) -> (r: String)
    ensures
        r@ == uppercase(s@),
{
    s.to_uppercase()
}

/// The prefix given to the flag names of variants with a one-byte name, so
/// that the constant does not collide with the variant.
pub open spec fn const_prefix() -> Seq<char> {
    seq!['C', 'O', 'N', 'S', 'T', '_']
}

/// The flag name built from a variant called `name` whose upper-case form
/// is `upper`: `upper`, prefixed by `CONST_` when the name is one byte long.
pub open spec fn flag_name_from_upper(name: Seq<char>, upper: Seq<char>) -> Seq<char> {
    if encode_utf8(name).len() as usize == 1 {
        const_prefix() + upper
    } else {
        upper
    }
}

/// The name of the flag constant of a variant called `name`: its upper-case
/// form, prefixed by `CONST_` when the name is one byte long.
pub open spec fn bitflag_name(name: Seq<char>) -> Seq<char> {
    flag_name_from_upper(name, uppercase(name))
}

/// The flag name of the variant `field`, given the upper-case form `upper`
/// of its name.
pub fn bitflag_ident_from_upper(field: &str, upper: String) -> (r: String)
    ensures
        r@ == flag_name_from_upper(field@, upper@),
{
    if field.len() == 1 {
        let mut r = String::from_str("CONST_");
        proof {
            reveal_strlit("CONST_");
            assert(r@ =~= const_prefix());
        }
        r.append(upper.as_str());
        r
    } else {
        upper
    }
}

/// The name of the flag constant of the variant `field`.
pub fn get_bitflag_ident(field: &str) -> (r: String)
    ensures
        r@ == bitflag_name(field@),
{
    let upper = to_uppercase(field);
    bitflag_ident_from_upper(field, upper)
}

/// The flag constants of the variants, in declaration order: the variant at
/// position `i` gets the flag `2^i`.  The flag after the last one must fit
/// in a `u32` too, so an enum has fewer than 32 variants.
pub fn generate_type_ids(components: &[ComponentVariant]) -> (r: Vec<FlagConstant>)
    requires
        components@.len() < 32,
    ensures
        r@.len() == components@.len(),
        forall|i: int|
            0 <= i < r@.len() ==> {
                &&& (#[trigger] r@[i]).name@ == bitflag_name(components@[i].name@)
                &&& r@[i].value as nat == pow2(i as nat)
            },
{
    let mut r: Vec<FlagConstant> = Vec::new();
    let n = components.len();
    let mut id: u32 = 1;
    let mut i: usize = 0;
    proof {
        vstd::arithmetic::power2::lemma2_to64();
    }
    while i < n
        invariant
            n == components@.len(),
            n < 32,
            0 <= i <= n,
            r@.len() == i,
            i < n ==> id as nat == pow2(i as nat),
            forall|k: int|
                0 <= k < i ==> {
                    &&& (#[trigger] r@[k]).name@ == bitflag_name(components@[k].name@)
                    &&& r@[k].value as nat == pow2(k as nat)
                },
        decreases n - i,
    {
        let name = get_bitflag_ident(components[i].name.as_str());
        r.push(FlagConstant { name, value: id });
        if i + 1 < n {
            proof {
                lemma_pow2_unfold((i + 1) as nat);
                vstd::arithmetic::power2::lemma2_to64();
                if i + 1 < 31 {
                    vstd::arithmetic::power2::lemma_pow2_strictly_increases((i + 1) as nat, 31);
                }
            }
            id = id * 2;
        }
        i += 1;
    }
    r
}

/// Number of variants whose value type is `value_type`.
pub open spec fn occurrences(components: Seq<ComponentVariant>, value_type: Seq<char>) -> nat
    decreases components.len(),
{
    if components.len() == 0 {
        0
    } else {
        occurrences(components.drop_last(), value_type) + if components.last().value_type matches Some(
            t,
        ) && t@ == value_type {
            1nat
        } else {
            0nat
        }
    }
}

/// Whether no other variant shares the value type `value_type`, so that a
/// `From<value_type>` impl is unambiguous.
pub fn is_distinct(value_type: &String, components: &[ComponentVariant]) -> (r: bool)
    ensures
        r == (occurrences(components@, value_type@) <= 1),
        r <==> forall|i: int, j: int|
            #![trigger components@[i], components@[j]]
            0 <= i < j < components@.len() && (match components@[i].value_type {
                Some(a) => a@ == value_type@,
                None => false,
            }) ==> !(match components@[j].value_type {
                Some(b) => b@ == value_type@,
                None => false,
            }),
{
    proof {
        lemma_occurrences_pairs(components@, value_type@);
    }
    let mut count: usize = 0;
    let n = components.len();
    let mut i: usize = 0;
    while i < n
        invariant
            n == components@.len(),
            0 <= i <= n,
            count == occurrences(components@.take(i as int), value_type@),
            count <= 1,
        decreases n - i,
    {
        proof {
            assert(components@.take(i + 1).drop_last() =~= components@.take(i as int));
        }
        if let Some(t) = &components[i].value_type {
            if *t == *value_type {
                count += 1;
            }
        }
        if count > 1 {
            proof {
                lemma_occurrences_prefix(components@, value_type@, i + 1);
                lemma_occurrences_pairs(components@, value_type@);
            }
            return false;
        }
        i += 1;
    }
    proof {
        assert(components@.take(n as int) =~= components@);
    }
    true
}

/// No variant has the value type `v` exactly when it occurs nowhere.
pub proof fn lemma_occurrences_none(cs: Seq<ComponentVariant>, v: Seq<char>)
    ensures
        occurrences(cs, v) == 0 <==> forall|i: int|
            0 <= i < cs.len() ==> !(match #[trigger] cs[i].value_type {
                Some(a) => a@ == v,
                None => false,
            }),
    decreases cs.len(),
{
    if cs.len() > 0 {
        let init = cs.drop_last();
        lemma_occurrences_none(init, v);
        assert forall|i: int| 0 <= i < init.len() implies init[i] == cs[i] by {}
        assert(cs.last() == cs[cs.len() - 1]);
    }
}

/// A value type occurs at most once exactly when no two variants both have
/// it (value types compared as whole strings).
pub proof fn lemma_occurrences_pairs(cs: Seq<ComponentVariant>, v: Seq<char>)
    ensures
        occurrences(cs, v) <= 1 <==> forall|i: int, j: int|
            #![trigger cs[i], cs[j]]
            0 <= i < j < cs.len() && (match cs[i].value_type {
                Some(a) => a@ == v,
                None => false,
            }) ==> !(match cs[j].value_type {
                Some(b) => b@ == v,
                None => false,
            }),
    decreases cs.len(),
{
    if cs.len() > 0 {
        let init = cs.drop_last();
        let n = cs.len() - 1;
        lemma_occurrences_pairs(init, v);
        lemma_occurrences_none(init, v);
        assert forall|i: int| 0 <= i < init.len() implies init[i] == cs[i] by {}
        assert(cs.last() == cs[n]);
        let last_has = match cs[n].value_type {
            Some(b) => b@ == v,
            None => false,
        };
        if occurrences(cs, v) <= 1 {
            assert forall|i: int, j: int|
                #![trigger cs[i], cs[j]]
                0 <= i < j < cs.len() && (match cs[i].value_type {
                    Some(a) => a@ == v,
                    None => false,
                }) implies !(match cs[j].value_type {
                    Some(b) => b@ == v,
                    None => false,
                }) by {
                if j < n {
                    assert(init[i] == cs[i] && init[j] == cs[j]);
                } else {
                    assert(init[i] == cs[i]);
                }
            }
        } else {
            if last_has {
                assert(occurrences(init, v) >= 1);
                let i = choose|i: int|
                    0 <= i < init.len() && (match #[trigger] init[i].value_type {
                        Some(a) => a@ == v,
                        None => false,
                    });
                assert(init[i] == cs[i]);
            } else {
                let (i, j) = choose|i: int, j: int|
                    #![trigger init[i], init[j]]
                    0 <= i < j < init.len() && (match init[i].value_type {
                        Some(a) => a@ == v,
                        None => false,
                    }) && (match init[j].value_type {
                        Some(b) => b@ == v,
                        None => false,
                    });
                assert(init[i] == cs[i] && init[j] == cs[j]);
            }
        }
    }
}

/// When variant `k` has the value type `v`, the type occurs at most once
/// exactly when no other variant has it.
pub proof fn lemma_only_one_has(cs: Seq<ComponentVariant>, k: int, v: Seq<char>)
    requires
        0 <= k < cs.len(),
        match cs[k].value_type {
            Some(a) => a@ == v,
            None => false,
        },
    ensures
        occurrences(cs, v) <= 1 <==> forall|j: int|
            0 <= j < cs.len() && j != k ==> !(match #[trigger] cs[j].value_type {
                Some(b) => b@ == v,
                None => false,
            }),
{
    lemma_occurrences_pairs(cs, v);
    if occurrences(cs, v) <= 1 {
        assert forall|j: int| 0 <= j < cs.len() && j != k implies !(match #[trigger] cs[j].value_type {
            Some(b) => b@ == v,
            None => false,
        }) by {
            if j < k {
                assert(!(match cs[k].value_type {
                    Some(b) => b@ == v,
                    None => false,
                }) || !(match cs[j].value_type {
                    Some(a) => a@ == v,
                    None => false,
                }));
            } else {
                assert(j > k);
            }
        }
    } else {
        let (i, j) = choose|i: int, j: int|
            #![trigger cs[i], cs[j]]
            0 <= i < j < cs.len() && (match cs[i].value_type {
                Some(a) => a@ == v,
                None => false,
            }) && (match cs[j].value_type {
                Some(b) => b@ == v,
                None => false,
            });
        if i != k {
            assert(cs[i] == cs[i]);
        } else {
            assert(cs[j] == cs[j]);
        }
    }
}

/// Occurrences in a prefix never exceed occurrences in the whole list.
pub proof fn lemma_occurrences_prefix(components: Seq<ComponentVariant>, value_type: Seq<char>, k: int)
    requires
        0 <= k <= components.len(),
    ensures
        occurrences(components.take(k), value_type) <= occurrences(components, value_type),
    decreases components.len() - k,
{
    if k < components.len() {
        lemma_occurrences_prefix(components, value_type, k + 1);
        assert(components.take(k + 1).drop_last() =~= components.take(k));
    } else {
        assert(components.take(k) =~= components);
    }
}

/// The variant at `i` gets a `From` impl: it is not a marker, it has a value
/// type, and no other variant has the same value type.
pub open spec fn gets_from_impl(components: Seq<ComponentVariant>, i: int) -> bool {
    &&& !components[i].marker
    &&& components[i].value_type matches Some(t) && occurrences(components, t@) <= 1
}

/// The positions of the variants that get a `From` impl, ascending.
pub fn generate_from_impls(components: &[ComponentVariant]) -> (r: Vec<usize>)
    ensures
        forall|k: int| 0 <= k < r@.len() ==> (#[trigger] r@[k]) < components@.len(),
        forall|k: int, l: int| 0 <= k < l < r@.len() ==> r@[k] < r@[l],
        forall|i: int|
            0 <= i < components@.len() ==> (gets_from_impl(components@, i) <==> r@.contains(
                i as usize,
            )),
        forall|i: int|
            0 <= i < components@.len() ==> (#[trigger] r@.contains(i as usize) <==> (!components@[i].marker
                && match components@[i].value_type {
                Some(t) => forall|j: int|
                    0 <= j < components@.len() && j != i ==> !(match #[trigger] components@[j].value_type {
                        Some(b) => b@ == t@,
                        None => false,
                    }),
                None => false,
            })),
{
    let mut r: Vec<usize> = Vec::new();
    let n = components.len();
    let mut i: usize = 0;
    while i < n
        invariant
            n == components@.len(),
            0 <= i <= n,
            forall|k: int| 0 <= k < r@.len() ==> (#[trigger] r@[k]) < i,
            forall|k: int, l: int| 0 <= k < l < r@.len() ==> r@[k] < r@[l],
            forall|j: int| 0 <= j < i ==> (gets_from_impl(components@, j) <==> r@.contains(j as usize)),
        decreases n - i,
    {
        let c = &components[i];
        if !c.marker {
            if let Some(value_type) = &c.value_type {
                if is_distinct(value_type, components) {
                    let ghost before = r@;
                    r.push(i);
                    proof {
                        assert forall|j: int| 0 <= j < i + 1 implies (gets_from_impl(components@, j)
                            <==> r@.contains(j as usize)) by {
                            if j < i {
                                if before.contains(j as usize) {
                                    let k = choose|k: int| 0 <= k < before.len() && before[k] == j as usize;
                                    assert(r@[k] == j as usize);
                                }
                                if r@.contains(j as usize) {
                                    let k = choose|k: int| 0 <= k < r@.len() && r@[k] == j as usize;
                                    assert(k < before.len());
                                    assert(before[k] == j as usize);
                                }
                            } else {
                                assert(r@[before.len() as int] == i);
                            }
                        }
                    }
                    i += 1;
                    continue;
                }
            }
        }
        proof {
            assert(!r@.contains(i));
        }
        i += 1;
    }
    proof {
        assert forall|k: int| 0 <= k < components@.len() implies #[trigger] r@.contains(k as usize) == (!components@[k].marker
            && match components@[k].value_type {
            Some(t) => forall|j: int|
                0 <= j < components@.len() && j != k ==> !(match #[trigger] components@[j].value_type {
                    Some(b) => b@ == t@,
                    None => false,
                }),
            None => false,
        }) by {
            assert(gets_from_impl(components@, k) <==> r@.contains(k as usize));
            if let Some(t) = components@[k].value_type {
                lemma_only_one_has(components@, k, t@);
            }
        }
    }
    r
}

/// The positions of the marker variants, ascending; the generated
/// `is_marker` answers `true` for exactly these.
pub fn marker_variants(components: &[ComponentVariant]) -> (r: Vec<usize>)
    ensures
        forall|k: int| 0 <= k < r@.len() ==> (#[trigger] r@[k]) < components@.len(),
        forall|k: int, l: int| 0 <= k < l < r@.len() ==> r@[k] < r@[l],
        forall|i: int| 0 <= i < components@.len() ==> (components@[i].marker <==> r@.contains(i as usize)),
{
    let mut r: Vec<usize> = Vec::new();
    let n = components.len();
    let mut i: usize = 0;
    while i < n
        invariant
            n == components@.len(),
            0 <= i <= n,
            forall|k: int| 0 <= k < r@.len() ==> (#[trigger] r@[k]) < i,
            forall|k: int, l: int| 0 <= k < l < r@.len() ==> r@[k] < r@[l],
            forall|j: int| 0 <= j < i ==> (components@[j].marker <==> r@.contains(j as usize)),
        decreases n - i,
    {
        let ghost before = r@;
        if components[i].marker {
            r.push(i);
            proof {
                assert(r@[before.len() as int] == i);
            }
        }
        proof {
            assert forall|j: int| 0 <= j < i + 1 implies (components@[j].marker <==> r@.contains(j as usize)) by {
                if j < i {
                    if before.contains(j as usize) {
                        let k = choose|k: int| 0 <= k < before.len() && before[k] == j as usize;
                        assert(r@[k] == j as usize);
                    }
                    if r@.contains(j as usize) {
                        let k = choose|k: int| 0 <= k < r@.len() && r@[k] == j as usize;
                        assert(k < before.len());
                    }
                } else if !components@[j].marker && r@.contains(j as usize) {
                    let k = choose|k: int| 0 <= k < r@.len() && r@[k] == j as usize;
                    assert(r@ == before);
                }
            }
        }
        i += 1;
    }
    r
}

} // verus!
