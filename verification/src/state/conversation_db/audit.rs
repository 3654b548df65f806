//! Who changed what someone may do on a platform.

use vstd::prelude::*;

use crate::hex::{self, push_hex};

verus! {

/// What a grant is for.
#[derive(Debug)]
pub struct PlatformAccessGrantKey {
    pub platform: String,
    pub account_scope: String,
    pub permission: String,
    pub subject_kind: String,
    pub subject_id: String,
}

/// Who changed a grant, and where.
#[derive(Debug)]
pub struct PlatformAccessActor {
    pub platform: String,
    pub account_id: String,
    pub user_id: String,
    pub conversation_kind: String,
    pub conversation_id: String,
    pub message_id: String,
}

/// A change of a grant as it is written down.
#[derive(Debug)]
pub struct PlatformAccessAudit {
    pub audit_id: String,
    pub operation: String,
    pub key: PlatformAccessGrantKey,
    pub actor: PlatformAccessActor,
    pub created_at: String,
}

/// The id of a change that drew the number `random`.
pub open spec fn audit_id_of(random: u128) -> Seq<char> {
    "access-audit-"@ + hex::hex(random as nat, 32)
}

/// The id of a change that drew the number `random`.
pub fn audit_id(random: u128) -> (id: String)
    ensures
        id@ == audit_id_of(random),
{
    let mut id = "access-audit-".to_owned();
    push_hex(&mut id, random, 32);
    id
}

/// `rand::random`: any number.
#[verifier::external_body]
fn any_number() -> (n: u128) {
    rand::random::<u128>()
}

/// A change of a grant as it is written down, under an id of its own.
pub fn platform_access_audit(
    operation: &str,
    key: PlatformAccessGrantKey,
    actor: PlatformAccessActor,
    created_at: &str,
) -> (audit: PlatformAccessAudit)
    ensures
        exists|random: u128| audit.audit_id@ == #[trigger] audit_id_of(random),
        audit.operation@ == operation@,
        audit.key == key,
        audit.actor == actor,
        audit.created_at@ == created_at@,
{
    PlatformAccessAudit {
        audit_id: audit_id(any_number()),
        operation: operation.to_owned(),
        key,
        actor,
        created_at: created_at.to_owned(),
    }
}

// ---------------------------------------------------------------------------
// Laws
// ---------------------------------------------------------------------------

/// Different numbers give different ids.
pub proof fn audit_ids_differ(a: u128, b: u128)
    requires
        a != b,
    ensures
        audit_id_of(a) != audit_id_of(b),
{
    if audit_id_of(a) == audit_id_of(b) {
        let n = "access-audit-"@.len() as int;
        assert(audit_id_of(a).skip(n) =~= hex::hex(a as nat, 32));
        assert(audit_id_of(b).skip(n) =~= hex::hex(b as nat, 32));
        lemma_hex_injective(a as nat, b as nat, 32);
        lemma_shift_all(a);
        lemma_shift_all(b);
    }
}

/// A number without its last `width` hexadecimal digits.
spec fn shifted(n: nat, width: nat) -> nat
    decreases width,
{
    if width == 0 {
        n
    } else {
        shifted(n / 16, (width - 1) as nat)
    }
}

proof fn lemma_hex_injective(a: nat, b: nat, width: nat)
    requires
        hex::hex(a, width) == hex::hex(b, width),
        shifted(a, width) == shifted(b, width) || width > 0,
    ensures
        shifted(a, width) == shifted(b, width) ==> a == b,
    decreases width,
{
    if width > 0 {
        let s = hex::hex(a, width);
        let t = hex::hex(b, width);
        assert(s.last() == hex::hex_digit((a % 16) as int));
        assert(t.last() == hex::hex_digit((b % 16) as int));
        assert(a % 16 == b % 16);
        assert(s.drop_last() =~= hex::hex(a / 16, (width - 1) as nat));
        assert(t.drop_last() =~= hex::hex(b / 16, (width - 1) as nat));
        if shifted(a, width) == shifted(b, width) {
            lemma_hex_injective(a / 16, b / 16, (width - 1) as nat);
        }
    }
}

/// Nothing is left of 128 bits after 32 digits.
proof fn lemma_shift_all(n: u128)
    ensures
        shifted(n as nat, 32) == 0,
{
    reveal_with_fuel(shifted, 33);
}

/// A change is written down with what was done to which grant, by whom and
/// when, under an id of its own: a prefix and the 32 digits of a number.
pub proof fn a_change_is_written_down(
    operation: &str,
    key: PlatformAccessGrantKey,
    actor: PlatformAccessActor,
    created_at: &str,
    audit: PlatformAccessAudit,
    i: int,
)
    requires
        call_ensures(platform_access_audit, (operation, key, actor, created_at), audit),
    ensures
        audit.operation@ == operation@,
        audit.key == key,
        audit.actor == actor,
        audit.created_at@ == created_at@,
        audit.audit_id@.len() == 45,
        audit.audit_id@.take(13) == "access-audit-"@,
        13 <= i < 45 ==> "0123456789abcdef"@.contains(audit.audit_id@[i]),
{
    reveal_strlit("access-audit-");
    let random = choose|random: u128| audit.audit_id@ == #[trigger] audit_id_of(random);
    hex::digits_count_in_sixteens(random as nat, 32);
    assert(audit.audit_id@.take(13) =~= "access-audit-"@);
    if 13 <= i < 45 {
        lemma_is_digit(random as nat, 32, i - 13);
        assert(audit.audit_id@[i] == hex::hex(random as nat, 32)[i - 13]);
    }
}

proof fn lemma_is_digit(n: nat, width: nat, i: int)
    requires
        0 <= i < width,
    ensures
        "0123456789abcdef"@.contains(hex::hex(n, width)[i]),
    decreases width,
{
    reveal_strlit("0123456789abcdef");
    hex::digits_count_in_sixteens(n, width);
    if i < width - 1 {
        lemma_is_digit(n / 16, (width - 1) as nat, i);
        assert(hex::hex(n, width)[i] == hex::hex(n, width).drop_last()[i]);
    } else {
        assert(0 <= (n % 16) as int && ((n % 16) as int) < "0123456789abcdef"@.len());
    }
}

} // verus!
