//! The NAT port-forwarding reconciler: a declarative rule table, the
//! firewall directives that realize it, and safe migration when the external
//! interface changes.
//!
//! A rule's identity is its whole field tuple — two rules with equal fields
//! are indistinguishable, and deletion removes the first structural match.
//! Every mutation follows apply-before-persist: the firewall effect is
//! attempted first, and only on success is the table changed and handed back
//! as file text to persist, so a failed effect never corrupts the record of
//! intent. The shell around the library runs the returned commands and does
//! the file writes, holding one lock around each whole mutation.

use vstd::prelude::*;
use crate::text::{
    all_digits, dec_chars, is_space, parse_canon_dec, render_u32, spec_canon_dec, spec_lines,
    spec_tokens, split_lines, str_eq, tokens_of,
};
use crate::udhcpd_config::{
    join_lines, lemma_join_concat, lemma_join_single, line_no_nl, lines_no_nl,
};

verus! {

/// One NAT forwarding entry: traffic arriving on the external interface at
/// `external_port` is redirected to `internal_ip:internal_port`.
#[derive(Debug)]
pub struct PortMapRule {
    pub protocol: String,
    pub external_port: u16,
    pub internal_ip: String,
    pub internal_port: u16,
}

pub struct PortMapRuleView {
    pub protocol: Seq<char>,
    pub external_port: u16,
    pub internal_ip: Seq<char>,
    pub internal_port: u16,
}

impl View for PortMapRule {
    type V = PortMapRuleView;

    open spec fn view(&self) -> PortMapRuleView {
        PortMapRuleView {
            protocol: self.protocol@,
            external_port: self.external_port,
            internal_ip: self.internal_ip@,
            internal_port: self.internal_port,
        }
    }
}

impl DeepView for PortMapRule {
    type V = PortMapRuleView;

    open spec fn deep_view(&self) -> PortMapRuleView {
        self.view()
    }
}

impl Clone for PortMapRule {
    fn clone(&self) -> (r: Self)
        ensures
            r@ == self@,
    {
        PortMapRule {
            protocol: self.protocol.clone(),
            external_port: self.external_port,
            internal_ip: self.internal_ip.clone(),
            internal_port: self.internal_port,
        }
    }
}

/// Structural equality of rules: a rule's identity is its field tuple.
pub fn rule_eq(a: &PortMapRule, b: &PortMapRule) -> (r: bool)
    ensures
        r == (a@ == b@),
{
    str_eq(a.protocol.as_str(), b.protocol.as_str()) && a.external_port == b.external_port
        && str_eq(a.internal_ip.as_str(), b.internal_ip.as_str()) && a.internal_port
        == b.internal_port
}

/// The declarative port-mapping state: the external interface and the
/// ordered rule table.
#[derive(Debug)]
pub struct PortMapConfig {
    pub external_interface: String,
    pub rules: Vec<PortMapRule>,
}

#[verifier::ext_equal]
pub struct PortMapConfigView {
    pub external_interface: Seq<char>,
    pub rules: Seq<PortMapRuleView>,
}

impl View for PortMapConfig {
    type V = PortMapConfigView;

    open spec fn view(&self) -> PortMapConfigView {
        PortMapConfigView {
            external_interface: self.external_interface@,
            rules: self.rules.deep_view(),
        }
    }
}

pub open spec fn empty_portmap() -> PortMapConfigView {
    PortMapConfigView { external_interface: Seq::empty(), rules: Seq::empty() }
}

impl Default for PortMapConfig {
    /// An empty interface name and no rules.
    fn default() -> (r: Self)
        ensures
            r@ == empty_portmap(),
    {
        let r = PortMapConfig { external_interface: String::new(), rules: Vec::new() };
        proof {
            assert(r@ =~= empty_portmap());
        }
        r
    }
}

// ---------------------------------------------------------------------------
// Firewall directives
// ---------------------------------------------------------------------------

/// One rule-level firewall effect: enable or disable one rule under one
/// interface. Realized as two `iptables` invocations (`apply_rule_internal`).
pub struct FirewallOp {
    /// `false` enables the rule (`-A`), `true` disables it (`-D`).
    pub remove: bool,
    pub iface: String,
    pub rule: PortMapRule,
}

pub struct FirewallOpView {
    pub remove: bool,
    pub iface: Seq<char>,
    pub rule: PortMapRuleView,
}

impl View for FirewallOp {
    type V = FirewallOpView;

    open spec fn view(&self) -> FirewallOpView {
        FirewallOpView { remove: self.remove, iface: self.iface@, rule: self.rule@ }
    }
}

impl DeepView for FirewallOp {
    type V = FirewallOpView;

    open spec fn deep_view(&self) -> FirewallOpView {
        self.view()
    }
}

/// One enable (or disable) op for each rule, in table order, under `iface`.
pub open spec fn ops_for(rules: Seq<PortMapRuleView>, iface: Seq<char>, remove: bool) -> Seq<
    FirewallOpView,
> {
    rules.map_values(|r: PortMapRuleView| FirewallOpView { remove, iface, rule: r })
}

pub open spec fn spec_action_flag(remove: bool) -> Seq<char> {
    if remove {
        "-D"@
    } else {
        "-A"@
    }
}

/// `internal_ip:internal_port`, the DNAT destination.
pub open spec fn spec_destination(r: PortMapRuleView) -> Seq<char> {
    r.internal_ip + seq![':'] + dec_chars(r.internal_port as nat)
}

/// The inbound half: on the nat PREROUTING chain, traffic entering `iface`
/// with the rule's protocol and external port is DNATed to the internal
/// host and port.
pub open spec fn spec_prerouting_args(r: PortMapRuleView, iface: Seq<char>, remove: bool) -> Seq<
    Seq<char>,
> {
    seq![
        "-t"@,
        "nat"@,
        spec_action_flag(remove),
        "PREROUTING"@,
        "-i"@,
        iface,
        "-p"@,
        r.protocol,
        "--dport"@,
        dec_chars(r.external_port as nat),
        "-j"@,
        "DNAT"@,
        "--to-destination"@,
        spec_destination(r),
    ]
}

/// The outbound half: on the nat POSTROUTING chain, traffic leaving `iface`
/// for the internal host and port is masqueraded, so return traffic is
/// rewritten to traverse the gateway.
pub open spec fn spec_postrouting_args(r: PortMapRuleView, iface: Seq<char>, remove: bool) -> Seq<
    Seq<char>,
> {
    seq![
        "-t"@,
        "nat"@,
        spec_action_flag(remove),
        "POSTROUTING"@,
        "-o"@,
        iface,
        "-p"@,
        r.protocol,
        "--dport"@,
        dec_chars(r.internal_port as nat),
        "-d"@,
        r.internal_ip,
        "-j"@,
        "MASQUERADE"@,
    ]
}

/// Enabling and disabling a rule are exact inverses: the two argument lists
/// differ only in the action flag.
pub proof fn lemma_firewall_ops_inverse(r: PortMapRuleView, iface: Seq<char>)
    ensures
        spec_prerouting_args(r, iface, true) == spec_prerouting_args(r, iface, false).update(
            2,
            "-D"@,
        ),
        spec_postrouting_args(r, iface, true) == spec_postrouting_args(r, iface, false).update(
            2,
            "-D"@,
        ),
{
    assert(spec_prerouting_args(r, iface, true) =~= spec_prerouting_args(r, iface, false).update(
        2,
        "-D"@,
    ));
    assert(spec_postrouting_args(r, iface, true) =~= spec_postrouting_args(r, iface, false).update(
        2,
        "-D"@,
    ));
}

// ---------------------------------------------------------------------------
// The manager
// ---------------------------------------------------------------------------

/// Errors from the port-map mutation operations.
#[derive(Debug)]
pub enum PortMapError {
    /// The firewall command for the rule failed; the table and the file
    /// were left untouched.
    Firewall,
}

/// Removing a rule removes the first structural match only; a rule that is
/// not present is removed without effect.
pub open spec fn remove_first_rule(rules: Seq<PortMapRuleView>, r: PortMapRuleView) -> Seq<
    PortMapRuleView,
>
    decreases rules.len(),
{
    if rules.len() == 0 {
        Seq::empty()
    } else if rules[0] == r {
        rules.drop_first()
    } else {
        seq![rules[0]] + remove_first_rule(rules.drop_first(), r)
    }
}

/// Owns the rule table; the shell keeps it behind one lock and persists the
/// file text the mutation operations hand back.
pub struct PortMapManager {
    pub config: PortMapConfig,
    pub file_path: String,
}

impl PortMapManager {
    /// The two `iptables` argument lists that enable (`remove == false`) or
    /// disable (`remove == true`) one rule under one interface. An empty
    /// interface name is passed through as an empty token; setting the
    /// interface first is the caller's responsibility.
    pub fn apply_rule_internal(rule: &PortMapRule, iface: &str, remove: bool) -> (r: (
        Vec<String>,
        Vec<String>,
    ))
        ensures
            r.0.deep_view() == spec_prerouting_args(rule@, iface@, remove),
            r.1.deep_view() == spec_postrouting_args(rule@, iface@, remove),
    {
        let action: &str = if remove {
            "-D"
        } else {
            "-A"
        };
        let port_text = render_u32(rule.internal_port as u32);
        let mut destination = rule.internal_ip.clone();
        destination.append(":");
        destination.append(port_text.as_str());
        proof {
            reveal_strlit(":");
            assert(":"@ =~= seq![':']);
            assert(destination@ =~= spec_destination(rule@));
        }
        let mut pre: Vec<String> = Vec::new();
        pre.push("-t".to_owned());
        pre.push("nat".to_owned());
        pre.push(action.to_owned());
        pre.push("PREROUTING".to_owned());
        pre.push("-i".to_owned());
        pre.push(iface.to_owned());
        pre.push("-p".to_owned());
        pre.push(rule.protocol.clone());
        pre.push("--dport".to_owned());
        pre.push(render_u32(rule.external_port as u32));
        pre.push("-j".to_owned());
        pre.push("DNAT".to_owned());
        pre.push("--to-destination".to_owned());
        pre.push(destination.clone());
        let mut post: Vec<String> = Vec::new();
        post.push("-t".to_owned());
        post.push("nat".to_owned());
        post.push(action.to_owned());
        post.push("POSTROUTING".to_owned());
        post.push("-o".to_owned());
        post.push(iface.to_owned());
        post.push("-p".to_owned());
        post.push(rule.protocol.clone());
        post.push("--dport".to_owned());
        post.push(render_u32(rule.internal_port as u32));
        post.push("-d".to_owned());
        post.push(rule.internal_ip.clone());
        post.push("-j".to_owned());
        post.push("MASQUERADE".to_owned());
        proof {
            assert(pre.deep_view() =~= spec_prerouting_args(rule@, iface@, remove));
            assert(post.deep_view() =~= spec_postrouting_args(rule@, iface@, remove));
        }
        (pre, post)
    }

    /// The firewall effect that enables `rule` under the current interface.
    pub fn apply_rule(&self, rule: &PortMapRule) -> (r: FirewallOp)
        ensures
            r@ == (FirewallOpView {
                remove: false,
                iface: self.config@.external_interface,
                rule: rule@,
            }),
    {
        FirewallOp { remove: false, iface: self.config.external_interface.clone(), rule: rule.clone() }
    }

    /// The firewall effect that disables `rule` under the current interface.
    pub fn remove_rule(&self, rule: &PortMapRule) -> (r: FirewallOp)
        ensures
            r@ == (FirewallOpView {
                remove: true,
                iface: self.config@.external_interface,
                rule: rule@,
            }),
    {
        FirewallOp { remove: true, iface: self.config.external_interface.clone(), rule: rule.clone() }
    }

    /// The effects that re-enable every stored rule under the current
    /// interface, in table order; used at startup and after an interface
    /// migration, with per-rule failures deliberately ignored so one bad
    /// rule does not block the rest.
    pub fn apply_all(&self) -> (r: Vec<FirewallOp>)
        ensures
            r.deep_view() == ops_for(self.config@.rules, self.config@.external_interface, false),
    {
        self.ops_for_rules(false, &self.config.external_interface)
    }

    /// One op per stored rule, in order, under the given interface.
    fn ops_for_rules(&self, remove: bool, iface: &String) -> (r: Vec<FirewallOp>)
        ensures
            r.deep_view() == ops_for(self.config@.rules, iface@, remove),
    {
        let ghost target = ops_for(self.config@.rules, iface@, remove);
        let mut r: Vec<FirewallOp> = Vec::new();
        let n = self.config.rules.len();
        let mut i: usize = 0;
        while i < n
            invariant
                i <= n == self.config.rules@.len(),
                target == ops_for(self.config@.rules, iface@, remove),
                self.config@.rules.len() == n,
                r.deep_view() =~= target.take(i as int),
            decreases n - i,
        {
            let op = FirewallOp {
                remove,
                iface: iface.clone(),
                rule: self.config.rules[i].clone(),
            };
            proof {
                assert(self.config@.rules[i as int] == self.config.rules@[i as int].deep_view());
                assert(op@ == target[i as int]);
            }
            let ghost pre_dv = r.deep_view();
            r.push(op);
            proof {
                assert(r.deep_view() =~= pre_dv.push(op@));
                assert(r.deep_view() =~= target.take(i as int + 1));
            }
            i = i + 1;
        }
        proof {
            assert(target.take(n as int) =~= target);
        }
        r
    }

    /// A deep copy of the current state.
    pub fn config(&self) -> (r: PortMapConfig)
        ensures
            r@ == self.config@,
    {
        let mut rules: Vec<PortMapRule> = Vec::new();
        let n = self.config.rules.len();
        let mut i: usize = 0;
        while i < n
            invariant
                i <= n == self.config.rules@.len(),
                rules.deep_view() =~= self.config@.rules.take(i as int),
            decreases n - i,
        {
            let ghost pre_dv = rules.deep_view();
            rules.push(self.config.rules[i].clone());
            proof {
                assert(rules.deep_view() =~= pre_dv.push(self.config.rules@[i as int].deep_view()));
                assert(rules.deep_view() =~= self.config@.rules.take(i as int + 1));
            }
            i = i + 1;
        }
        let r = PortMapConfig {
            external_interface: self.config.external_interface.clone(),
            rules,
        };
        proof {
            assert(self.config@.rules.take(n as int) =~= self.config@.rules);
            assert(r@ =~= self.config@);
        }
        r
    }

    /// Commits an addition after its firewall effect (from `apply_rule`) was
    /// attempted: on success the rule is appended and the new file text is
    /// returned for the caller to persist; on failure nothing changes and
    /// the error surfaces.
    pub fn add_rule(&mut self, rule: PortMapRule, firewall_ok: bool) -> (r: Result<
        String,
        PortMapError,
    >)
        ensures
            old(self).file_path@ == final(self).file_path@,
            firewall_ok ==> final(self).config@ == (PortMapConfigView {
                rules: old(self).config@.rules.push(rule@),
                ..old(self).config@
            }) && (r matches Ok(text) && text@ == spec_render_portmap(final(self).config@)),
            !firewall_ok ==> final(self).config@ == old(self).config@ && (r matches Err(
                PortMapError::Firewall,
            )),
    {
        if !firewall_ok {
            return Err(PortMapError::Firewall);
        }
        let ghost pre = self.config@;
        self.config.rules.push(rule);
        proof {
            assert(self.config@.rules =~= pre.rules.push(self.config.rules@.last()@));
            assert(self.config@ =~= (PortMapConfigView { rules: pre.rules.push(self.config.rules@.last()@), ..pre }));
        }
        Ok(render_portmap(&self.config))
    }

    /// The firewall effect a deletion must attempt first: `Some` exactly
    /// when a structurally equal rule is in the table (its first match).
    pub fn delete_plan(&self, rule: &PortMapRule) -> (r: Option<FirewallOp>)
        ensures
            match r {
                Some(op) => self.config@.rules.contains(rule@) && op@ == (FirewallOpView {
                    remove: true,
                    iface: self.config@.external_interface,
                    rule: rule@,
                }),
                None => !self.config@.rules.contains(rule@),
            },
    {
        let n = self.config.rules.len();
        let mut i: usize = 0;
        while i < n
            invariant
                i <= n == self.config.rules@.len(),
                forall|k: int| 0 <= k < i ==> #[trigger] self.config@.rules[k] != rule@,
            decreases n - i,
        {
            if rule_eq(&self.config.rules[i], rule) {
                proof {
                    assert(self.config@.rules[i as int] == rule@);
                }
                return Some(self.remove_rule(rule));
            }
            proof {
                assert(self.config@.rules[i as int] == self.config.rules@[i as int].deep_view());
            }
            i = i + 1;
        }
        None
    }

    /// Commits a deletion. Deleting a rule that is not in the table is not
    /// an error: the table is unchanged and the (unchanged) file text is
    /// still returned for the caller to persist. When the rule is present,
    /// its firewall effect must have been removed first (`delete_plan`);
    /// only on success is the first structural match taken out of the table.
    pub fn delete_rule(&mut self, rule: &PortMapRule, firewall_ok: bool) -> (r: Result<
        String,
        PortMapError,
    >)
        ensures
            old(self).file_path@ == final(self).file_path@,
            !old(self).config@.rules.contains(rule@) ==> final(self).config@ == old(self).config@
                && (r matches Ok(text) && text@ == spec_render_portmap(old(self).config@)),
            old(self).config@.rules.contains(rule@) && firewall_ok ==> final(self).config@ == (
            PortMapConfigView {
                rules: remove_first_rule(old(self).config@.rules, rule@),
                ..old(self).config@
            }) && (r matches Ok(text) && text@ == spec_render_portmap(final(self).config@)),
            old(self).config@.rules.contains(rule@) && !firewall_ok ==> final(self).config@ == old(
                self,
            ).config@ && (r matches Err(PortMapError::Firewall)),
    {
        let ghost pre = self.config@;
        let n = self.config.rules.len();
        let mut i: usize = 0;
        while i < n
            invariant
                i <= n == self.config.rules@.len(),
                self.config@ == pre,
                pre == old(self).config@,
                self == old(self),
                forall|k: int| 0 <= k < i ==> #[trigger] pre.rules[k] != rule@,
            decreases n - i,
        {
            if rule_eq(&self.config.rules[i], rule) {
                proof {
                    assert(pre.rules[i as int] == rule@);
                    assert(pre.rules.contains(rule@));
                }
                if !firewall_ok {
                    return Err(PortMapError::Firewall);
                }
                proof {
                    lemma_remove_first_at(pre.rules, rule@, i as int);
                }
                self.config.rules.remove(i);
                proof {
                    assert(self.config@.rules =~= pre.rules.remove(i as int));
                    assert(self.config@ =~= (PortMapConfigView {
                        rules: remove_first_rule(pre.rules, rule@),
                        ..pre
                    }));
                }
                return Ok(render_portmap(&self.config));
            }
            proof {
                assert(pre.rules[i as int] == self.config.rules@[i as int].deep_view());
            }
            i = i + 1;
        }
        proof {
            if pre.rules.contains(rule@) {
                let k = choose|k: int| 0 <= k < pre.rules.len() && pre.rules[k] == rule@;
                assert(pre.rules[k] != rule@);
            }
        }
        Ok(render_portmap(&self.config))
    }

    /// Switches the external interface. When it is unchanged this is a
    /// no-op. Otherwise the stored interface is replaced and the caller
    /// receives the new file text to persist, the effects that disable every
    /// rule under the old interface (empty when the old interface was empty;
    /// to be run best-effort after persisting — failures are ignored, a rule
    /// may already be gone), and the effects that then re-enable every rule
    /// under the new interface. This prevents orphaned firewall entries
    /// bound to an interface the configuration no longer tracks.
    pub fn set_interface(&mut self, iface: String) -> (r: InterfaceChange)
        ensures
            old(self).file_path@ == final(self).file_path@,
            old(self).config@.external_interface == iface@ ==> final(self).config@ == old(
                self,
            ).config@ && (r is Unchanged),
            old(self).config@.external_interface != iface@ ==> final(self).config@ == (
            PortMapConfigView { external_interface: iface@, rules: old(self).config@.rules })
                && (r matches InterfaceChange::Changed { cleanup, reapply, file_text }
                && cleanup.deep_view() == (if old(self).config@.external_interface.len() == 0 {
                    Seq::<FirewallOpView>::empty()
                } else {
                    ops_for(old(self).config@.rules, old(self).config@.external_interface, true)
                }) && reapply.deep_view() == ops_for(old(self).config@.rules, iface@, false)
                && file_text@ == spec_render_portmap(final(self).config@)),
    {
        if str_eq(self.config.external_interface.as_str(), iface.as_str()) {
            return InterfaceChange::Unchanged;
        }
        let ghost pre = self.config@;
        let cleanup: Vec<FirewallOp> = if self.config.external_interface.unicode_len() == 0 {
            let none: Vec<FirewallOp> = Vec::new();
            proof {
                assert(none.deep_view() =~= Seq::<FirewallOpView>::empty());
            }
            none
        } else {
            let old_iface = self.config.external_interface.clone();
            self.ops_for_rules(true, &old_iface)
        };
        let reapply = self.ops_for_rules(false, &iface);
        self.config.external_interface = iface;
        proof {
            assert(self.config@ =~= (PortMapConfigView {
                external_interface: self.config.external_interface@,
                rules: pre.rules,
            }));
        }
        let file_text = render_portmap(&self.config);
        InterfaceChange::Changed { cleanup, reapply, file_text }
    }
}

/// What `set_interface` decided: nothing to do, or a migration with its
/// cleanup effects, re-apply effects, and the new file text.
pub enum InterfaceChange {
    Unchanged,
    Changed { cleanup: Vec<FirewallOp>, reapply: Vec<FirewallOp>, file_text: String },
}

/// The first structural match sits at index `i`: removal takes exactly it.
proof fn lemma_remove_first_at(rules: Seq<PortMapRuleView>, r: PortMapRuleView, i: int)
    requires
        0 <= i < rules.len(),
        rules[i] == r,
        forall|k: int| 0 <= k < i ==> #[trigger] rules[k] != r,
    ensures
        remove_first_rule(rules, r) == rules.remove(i),
    decreases i,
{
    if i == 0 {
        assert(rules.drop_first() =~= rules.remove(0));
    } else {
        let t = rules.drop_first();
        assert(t[i - 1] == r);
        assert(forall|k: int| 0 <= k < i - 1 ==> #[trigger] t[k] == rules[k + 1] && t[k] != r);
        lemma_remove_first_at(t, r, i - 1);
        assert(seq![rules[0]] + t.remove(i - 1) =~= rules.remove(i));
    }
}

/// Rule identity: adding a rule and then deleting the same rule leaves the
/// table equivalent to before the add — equal as a multiset always, and
/// equal as a sequence whenever the rule was not already present. Together
/// with `lemma_firewall_ops_inverse`, the firewall effect of the pair is an
/// enable followed by its exact disable under the same interface.
pub proof fn lemma_add_then_delete(rules: Seq<PortMapRuleView>, r: PortMapRuleView)
    ensures
        remove_first_rule(rules.push(r), r).to_multiset() == rules.to_multiset(),
        !rules.contains(r) ==> remove_first_rule(rules.push(r), r) == rules,
{
    let w = rules.push(r);
    assert(w[w.len() - 1] == r);
    assert(w.contains(r));
    let i = choose|i: int| 0 <= i < w.len() && w[i] == r && (forall|k: int|
        0 <= k < i ==> #[trigger] w[k] != r);
    assert(exists|i: int|
        0 <= i < w.len() && w[i] == r && (forall|k: int| 0 <= k < i ==> #[trigger] w[k] != r)) by {
        let j = first_match_index(w, r);
        lemma_first_match_index(w, r);
        assert(0 <= j < w.len() && w[j] == r && (forall|k: int|
            0 <= k < j ==> #[trigger] w[k] != r));
    }
    lemma_remove_first_at(w, r, i);
    rules.to_multiset_ensures();
    w.to_multiset_ensures();
    assert(w.remove(i).to_multiset() =~= w.to_multiset().remove(w[i]));
    assert(w.to_multiset() =~= rules.to_multiset().insert(r));
    assert(rules.to_multiset().insert(r).remove(r) =~= rules.to_multiset());
    if !rules.contains(r) {
        assert forall|k: int| 0 <= k < rules.len() implies #[trigger] w[k] != r by {
            assert(w[k] == rules[k]);
            assert(rules.contains(rules[k]) || rules[k] != r) by {
                if rules[k] == r {
                    assert(rules.contains(rules[k]));
                }
            }
        }
        assert(i == rules.len());
        assert(w.remove(i) =~= rules);
    }
}

/// Index of the first structural match, or the length when there is none.
spec fn first_match_index(rules: Seq<PortMapRuleView>, r: PortMapRuleView) -> int
    decreases rules.len(),
{
    if rules.len() == 0 {
        0
    } else if rules[0] == r {
        0
    } else {
        1 + first_match_index(rules.drop_first(), r)
    }
}

proof fn lemma_first_match_index(rules: Seq<PortMapRuleView>, r: PortMapRuleView)
    requires
        rules.contains(r),
    ensures
        0 <= first_match_index(rules, r) < rules.len(),
        rules[first_match_index(rules, r)] == r,
        forall|k: int| 0 <= k < first_match_index(rules, r) ==> #[trigger] rules[k] != r,
    decreases rules.len(),
{
    if rules.len() > 0 && rules[0] != r {
        let t = rules.drop_first();
        assert(t.contains(r)) by {
            let j = choose|j: int| 0 <= j < rules.len() && rules[j] == r;
            assert(t[j - 1] == r);
        }
        lemma_first_match_index(t, r);
        let m = first_match_index(rules, r);
        assert(rules[m] == t[m - 1]);
        assert forall|k: int| 0 <= k < m implies #[trigger] rules[k] != r by {
            if k >= 1 {
                assert(rules[k] == t[k - 1]);
            }
        }
    }
}


// ---------------------------------------------------------------------------
// The state file codec
// ---------------------------------------------------------------------------
//
// The on-disk format is a small structured record: one `key = value` line
// for the external interface, then one block per rule introduced by a
// `[[rules]]` header, with string values quoted and ports in decimal. A file
// that does not parse yields no configuration, and the manager then starts
// from the empty default, matching the tolerant read-or-default behavior on
// construction.

pub open spec fn quoted(s: Seq<char>) -> Seq<char> {
    seq!['"'] + s + seq!['"']
}

pub open spec fn kv_str_line(key: Seq<char>, v: Seq<char>) -> Seq<char> {
    key + seq![' ', '=', ' '] + quoted(v)
}

pub open spec fn kv_int_line(key: Seq<char>, v: u16) -> Seq<char> {
    key + seq![' ', '=', ' '] + dec_chars(v as nat)
}

pub open spec fn rule_block_lines(r: PortMapRuleView) -> Seq<Seq<char>> {
    seq![
        Seq::<char>::empty(),
        "[[rules]]"@,
        kv_str_line("protocol"@, r.protocol),
        kv_int_line("external_port"@, r.external_port),
        kv_str_line("internal_ip"@, r.internal_ip),
        kv_int_line("internal_port"@, r.internal_port),
    ]
}

pub open spec fn rules_lines(rs: Seq<PortMapRuleView>) -> Seq<Seq<char>>
    decreases rs.len(),
{
    if rs.len() == 0 {
        Seq::empty()
    } else {
        rule_block_lines(rs[0]) + rules_lines(rs.drop_first())
    }
}

pub open spec fn portmap_lines(c: PortMapConfigView) -> Seq<Seq<char>> {
    seq![kv_str_line("external_interface"@, c.external_interface)] + rules_lines(c.rules)
}

/// The file text for a port-map state.
pub open spec fn spec_render_portmap(c: PortMapConfigView) -> Seq<char> {
    join_lines(portmap_lines(c))
}

proof fn lemma_rules_lines_push(rs: Seq<PortMapRuleView>, r: PortMapRuleView)
    ensures
        rules_lines(rs.push(r)) == rules_lines(rs) + rule_block_lines(r),
    decreases rs.len(),
{
    let w = rs.push(r);
    if rs.len() == 0 {
        assert(w[0] == r);
        assert(w.drop_first() =~= Seq::<PortMapRuleView>::empty());
        assert(rules_lines(Seq::<PortMapRuleView>::empty()) =~= Seq::<Seq<char>>::empty());
        assert(rules_lines(w) == rule_block_lines(r) + rules_lines(w.drop_first()));
        assert(rules_lines(w) =~= rules_lines(rs) + rule_block_lines(r));
    } else {
        assert(w[0] == rs[0]);
        assert(w.drop_first() =~= rs.drop_first().push(r));
        lemma_rules_lines_push(rs.drop_first(), r);
        assert(rules_lines(w) == rule_block_lines(rs[0]) + (rules_lines(rs.drop_first())
            + rule_block_lines(r)));
        assert(rules_lines(w) =~= rules_lines(rs) + rule_block_lines(r));
    }
}

/// Appends the six lines of one rule block.
fn append_rule_block(s: &mut String, rule: &PortMapRule)
    ensures
        final(s)@ == old(s)@ + join_lines(rule_block_lines(rule@)),
{
    s.append("\n[[rules]]\nprotocol = \"");
    s.append(rule.protocol.as_str());
    s.append("\"\nexternal_port = ");
    let ep = render_u32(rule.external_port as u32);
    s.append(ep.as_str());
    s.append("\ninternal_ip = \"");
    s.append(rule.internal_ip.as_str());
    s.append("\"\ninternal_port = ");
    let ip = render_u32(rule.internal_port as u32);
    s.append(ip.as_str());
    s.append("\n");
    proof {
        reveal_strlit("\n[[rules]]\nprotocol = \"");
        reveal_strlit("\"\nexternal_port = ");
        reveal_strlit("\ninternal_ip = \"");
        reveal_strlit("\"\ninternal_port = ");
        reveal_strlit("\n");
        reveal_strlit("[[rules]]");
        reveal_strlit("protocol");
        reveal_strlit("external_port");
        reveal_strlit("internal_ip");
        reveal_strlit("internal_port");
        let l1 = Seq::<char>::empty();
        let l2 = "[[rules]]"@;
        let l3 = kv_str_line("protocol"@, rule@.protocol);
        let l4 = kv_int_line("external_port"@, rule@.external_port);
        let l5 = kv_str_line("internal_ip"@, rule@.internal_ip);
        let l6 = kv_int_line("internal_port"@, rule@.internal_port);
        let b1 = seq![l1];
        let b2 = b1 + seq![l2];
        let b3 = b2 + seq![l3];
        let b4 = b3 + seq![l4];
        let b5 = b4 + seq![l5];
        let b6 = b5 + seq![l6];
        lemma_join_single(l1);
        lemma_join_single(l2);
        lemma_join_single(l3);
        lemma_join_single(l4);
        lemma_join_single(l5);
        lemma_join_single(l6);
        lemma_join_concat(b1, seq![l2]);
        lemma_join_concat(b2, seq![l3]);
        lemma_join_concat(b3, seq![l4]);
        lemma_join_concat(b4, seq![l5]);
        lemma_join_concat(b5, seq![l6]);
        assert(rule_block_lines(rule@) =~= b6);
        assert(s@ =~= old(s)@ + join_lines(rule_block_lines(rule@)));
    }
}

/// Renders a port-map state to its file text.
pub fn render_portmap(c: &PortMapConfig) -> (s: String)
    ensures
        s@ == spec_render_portmap(c@),
{
    let ghost cv = c@;
    let mut s = String::new();
    s.append("external_interface = \"");
    s.append(c.external_interface.as_str());
    s.append("\"\n");
    let ghost head = seq![kv_str_line("external_interface"@, cv.external_interface)];
    proof {
        reveal_strlit("external_interface = \"");
        reveal_strlit("external_interface");
        reveal_strlit("\"\n");
        lemma_join_single(kv_str_line("external_interface"@, cv.external_interface));
        assert(s@ =~= join_lines(head));
    }
    let n = c.rules.len();
    let mut i: usize = 0;
    proof {
        assert(cv.rules.take(0int) =~= Seq::<PortMapRuleView>::empty());
        assert(rules_lines(cv.rules.take(0int)) =~= Seq::<Seq<char>>::empty());
        lemma_join_concat(head, rules_lines(cv.rules.take(0int)));
        assert(head + rules_lines(cv.rules.take(0int)) =~= head);
    }
    while i < n
        invariant
            i <= n == c.rules@.len(),
            cv == c@,
            cv.rules.len() == n,
            head == seq![kv_str_line("external_interface"@, cv.external_interface)],
            s@ == join_lines(head + rules_lines(cv.rules.take(i as int))),
        decreases n - i,
    {
        proof {
            assert(cv.rules[i as int] == c.rules@[i as int].deep_view());
        }
        append_rule_block(&mut s, &c.rules[i]);
        proof {
            assert(cv.rules.take(i as int + 1) =~= cv.rules.take(i as int).push(
                cv.rules[i as int],
            ));
            lemma_rules_lines_push(cv.rules.take(i as int), cv.rules[i as int]);
            lemma_join_concat(head + rules_lines(cv.rules.take(i as int)), rule_block_lines(
                cv.rules[i as int],
            ));
            assert((head + rules_lines(cv.rules.take(i as int))) + rule_block_lines(
                cv.rules[i as int],
            ) =~= head + rules_lines(cv.rules.take(i as int + 1)));
        }
        i = i + 1;
    }
    proof {
        assert(cv.rules.take(n as int) =~= cv.rules);
        assert(head + rules_lines(cv.rules) =~= portmap_lines(cv));
    }
    s
}

// --- parsing ---

pub struct PartialRule {
    pub protocol: Option<Seq<char>>,
    pub external_port: Option<u16>,
    pub internal_ip: Option<Seq<char>>,
    pub internal_port: Option<u16>,
}

#[verifier::ext_equal]
pub struct PmState {
    pub iface: Option<Seq<char>>,
    pub done: Seq<PortMapRuleView>,
    pub cur: Option<PartialRule>,
}

pub open spec fn empty_partial() -> PartialRule {
    PartialRule { protocol: None, external_port: None, internal_ip: None, internal_port: None }
}

pub open spec fn finish_partial(p: PartialRule) -> Option<PortMapRuleView> {
    match (p.protocol, p.external_port, p.internal_ip, p.internal_port) {
        (Some(pr), Some(ep), Some(ii), Some(ip)) => Some(
            PortMapRuleView {
                protocol: pr,
                external_port: ep,
                internal_ip: ii,
                internal_port: ip,
            },
        ),
        _ => None,
    }
}

/// A quoted token: surrounding double quotes, none inside.
pub open spec fn quoted_val(t: Seq<char>) -> Option<Seq<char>> {
    if t.len() >= 2 && t[0] == '"' && t[t.len() - 1] == '"' && (forall|i: int|
        1 <= i < t.len() - 1 ==> #[trigger] t[i] != '"') {
        Some(t.subrange(1, t.len() - 1))
    } else {
        None
    }
}

/// A port number: canonical decimal, at most 65535.
pub open spec fn int_val(t: Seq<char>) -> Option<u16> {
    match spec_canon_dec(t, 65535) {
        Some(v) => Some(v as u16),
        None => None,
    }
}

/// One line of the state file: blank lines are skipped; `[[rules]]` closes
/// any open rule block (which must be complete) and opens a new one;
/// `key = value` lines fill the open block, or set the interface before the
/// first block; each key may appear once per block. Anything else fails the
/// parse.
pub open spec fn pm_apply_line(st: PmState, line: Seq<char>) -> Option<PmState> {
    let toks = spec_tokens(line);
    if toks.len() == 0 {
        Some(st)
    } else if toks.len() == 1 && toks[0] == "[[rules]]"@ {
        match st.cur {
            None => Some(PmState { cur: Some(empty_partial()), ..st }),
            Some(p) => match finish_partial(p) {
                Some(r) => Some(
                    PmState { done: st.done.push(r), cur: Some(empty_partial()), ..st },
                ),
                None => None,
            },
        }
    } else if toks.len() == 3 && toks[1] == "="@ {
        let key = toks[0];
        let val = toks[2];
        match st.cur {
            None => if key == "external_interface"@ && st.iface is None {
                match quoted_val(val) {
                    Some(v) => Some(PmState { iface: Some(v), ..st }),
                    None => None,
                }
            } else {
                None
            },
            Some(p) => if key == "protocol"@ && p.protocol is None {
                match quoted_val(val) {
                    Some(v) => Some(
                        PmState { cur: Some(PartialRule { protocol: Some(v), ..p }), ..st },
                    ),
                    None => None,
                }
            } else if key == "internal_ip"@ && p.internal_ip is None {
                match quoted_val(val) {
                    Some(v) => Some(
                        PmState { cur: Some(PartialRule { internal_ip: Some(v), ..p }), ..st },
                    ),
                    None => None,
                }
            } else if key == "external_port"@ && p.external_port is None {
                match int_val(val) {
                    Some(v) => Some(
                        PmState { cur: Some(PartialRule { external_port: Some(v), ..p }), ..st },
                    ),
                    None => None,
                }
            } else if key == "internal_port"@ && p.internal_port is None {
                match int_val(val) {
                    Some(v) => Some(
                        PmState { cur: Some(PartialRule { internal_port: Some(v), ..p }), ..st },
                    ),
                    None => None,
                }
            } else {
                None
            },
        }
    } else {
        None
    }
}

pub open spec fn pm_fold(st: PmState, lines: Seq<Seq<char>>) -> Option<PmState>
    decreases lines.len(),
{
    if lines.len() == 0 {
        Some(st)
    } else {
        match pm_apply_line(st, lines[0]) {
            Some(st2) => pm_fold(st2, lines.drop_first()),
            None => None,
        }
    }
}

pub open spec fn pm_initial() -> PmState {
    PmState { iface: None, done: Seq::empty(), cur: None }
}

/// The meaning of a whole state file; `None` when it does not parse, in
/// which case the manager falls back to the empty default.
pub open spec fn spec_parse_portmap(text: Seq<char>) -> Option<PortMapConfigView> {
    match pm_fold(pm_initial(), spec_lines(text)) {
        None => None,
        Some(st) => {
            let rules = match st.cur {
                None => Some(st.done),
                Some(p) => match finish_partial(p) {
                    Some(r) => Some(st.done.push(r)),
                    None => None,
                },
            };
            match (st.iface, rules) {
                (Some(i), Some(rs)) => Some(
                    PortMapConfigView { external_interface: i, rules: rs },
                ),
                _ => None,
            }
        },
    }
}

fn quoted_value(t: &str) -> (r: Option<String>)
    ensures
        match r {
            Some(v) => quoted_val(t@) == Some(v@),
            None => quoted_val(t@) is None,
        },
{
    let n = t.unicode_len();
    if n < 2 {
        return None;
    }
    if t.get_char(0) != '"' || t.get_char(n - 1) != '"' {
        return None;
    }
    let mut i: usize = 1;
    while i < n - 1
        invariant
            1 <= i <= n - 1,
            n == t@.len(),
            n >= 2,
            forall|k: int| 1 <= k < i ==> #[trigger] t@[k] != '"',
        decreases n - i,
    {
        if t.get_char(i) == '"' {
            return None;
        }
        i = i + 1;
    }
    Some(t.substring_char(1, n - 1).to_owned())
}

fn port_value(t: &str) -> (r: Option<u16>)
    ensures
        r == int_val(t@),
{
    match parse_canon_dec(t, 65535) {
        Some(v) => Some(v as u16),
        None => None,
    }
}

/// Parses a state file. `None` means the text is not a well-formed state
/// file; the caller then starts from the empty default.
pub fn parse_portmap(text: &str) -> (r: Option<PortMapConfig>)
    ensures
        match r {
            Some(c) => spec_parse_portmap(text@) == Some(c@),
            None => spec_parse_portmap(text@) is None,
        },
{
    let lines = split_lines(text);
    let ghost all = lines.deep_view();
    let mut iface: Option<String> = None;
    let mut done: Vec<PortMapRule> = Vec::new();
    let mut in_rule: bool = false;
    let mut protocol: Option<String> = None;
    let mut external_port: Option<u16> = None;
    let mut internal_ip: Option<String> = None;
    let mut internal_port: Option<u16> = None;
    let mut idx: usize = 0;
    proof {
        assert(all.skip(0int) =~= all);
        assert(exec_pm_state(
            iface,
            done.deep_view(),
            in_rule,
            protocol,
            external_port,
            internal_ip,
            internal_port,
        ) =~= pm_initial());
    }
    while idx < lines.len()
        invariant
            idx <= lines.len(),
            all == spec_lines(text@),
            all == lines.deep_view(),
            lines@.len() == all.len(),
            in_rule ==> iface is Some || true,
            pm_fold(pm_initial(), all) == pm_fold(
                exec_pm_state(
                    iface,
                    done.deep_view(),
                    in_rule,
                    protocol,
                    external_port,
                    internal_ip,
                    internal_port,
                ),
                all.skip(idx as int),
            ),
        decreases lines.len() - idx,
    {
        let ghost st = exec_pm_state(
            iface,
            done.deep_view(),
            in_rule,
            protocol,
            external_port,
            internal_ip,
            internal_port,
        );
        let ghost line_chars = all[idx as int];
        proof {
            assert(all.skip(idx as int)[0] == line_chars);
            assert(all.skip(idx as int).drop_first() =~= all.skip(idx as int + 1));
            assert(lines.deep_view()[idx as int] == lines@[idx as int]@);
        }
        let line = &lines[idx];
        let toks = tokens_of(line.as_str());
        let ghost tv = spec_tokens(line_chars);
        proof {
            assert(toks.deep_view() == tv);
            assert(toks@.len() == tv.len());
            assert(forall|k: int|
                0 <= k < toks@.len() ==> #[trigger] toks@[k]@ == toks.deep_view()[k]);
        }
        if toks.len() == 0 {
            // blank: state unchanged
        } else if toks.len() == 1 && str_eq(toks[0].as_str(), "[[rules]]") {
            if !in_rule {
                in_rule = true;
                protocol = None;
                external_port = None;
                internal_ip = None;
                internal_port = None;
            } else {
                match (protocol, external_port, internal_ip, internal_port) {
                    (Some(pr), Some(ep), Some(ii), Some(ip)) => {
                        let rule = PortMapRule {
                            protocol: pr,
                            external_port: ep,
                            internal_ip: ii,
                            internal_port: ip,
                        };
                        let ghost pre_dv = done.deep_view();
                        done.push(rule);
                        proof {
                            assert(done.deep_view() =~= pre_dv.push(rule@));
                        }
                        protocol = None;
                        external_port = None;
                        internal_ip = None;
                        internal_port = None;
                    },
                    _ => {
                        proof {
                            assert(pm_apply_line(st, line_chars) is None);
                        }
                        return None;
                    },
                }
            }
        } else if toks.len() == 3 && str_eq(toks[1].as_str(), "=") {
            if !in_rule {
                if str_eq(toks[0].as_str(), "external_interface") && iface.is_none() {
                    match quoted_value(toks[2].as_str()) {
                        Some(v) => {
                            iface = Some(v);
                        },
                        None => {
                            return None;
                        },
                    }
                } else {
                    return None;
                }
            } else {
                if str_eq(toks[0].as_str(), "protocol") && protocol.is_none() {
                    match quoted_value(toks[2].as_str()) {
                        Some(v) => {
                            protocol = Some(v);
                        },
                        None => {
                            return None;
                        },
                    }
                } else if str_eq(toks[0].as_str(), "internal_ip") && internal_ip.is_none() {
                    match quoted_value(toks[2].as_str()) {
                        Some(v) => {
                            internal_ip = Some(v);
                        },
                        None => {
                            return None;
                        },
                    }
                } else if str_eq(toks[0].as_str(), "external_port") && external_port.is_none() {
                    match port_value(toks[2].as_str()) {
                        Some(v) => {
                            external_port = Some(v);
                        },
                        None => {
                            return None;
                        },
                    }
                } else if str_eq(toks[0].as_str(), "internal_port") && internal_port.is_none() {
                    match port_value(toks[2].as_str()) {
                        Some(v) => {
                            internal_port = Some(v);
                        },
                        None => {
                            return None;
                        },
                    }
                } else {
                    return None;
                }
            }
        } else {
            return None;
        }
        proof {
            let st2 = exec_pm_state(
                iface,
                done.deep_view(),
                in_rule,
                protocol,
                external_port,
                internal_ip,
                internal_port,
            );
            assert(pm_apply_line(st, line_chars) == Some(st2)) by {
                assert(st2 =~= match pm_apply_line(st, line_chars) {
                    Some(x) => x,
                    None => st2,
                });
            }
        }
        idx = idx + 1;
    }
    proof {
        assert(all.skip(idx as int) =~= Seq::<Seq<char>>::empty());
    }
    let iface_str = match iface {
        Some(s) => s,
        None => {
            return None;
        },
    };
    if in_rule {
        match (protocol, external_port, internal_ip, internal_port) {
            (Some(pr), Some(ep), Some(ii), Some(ip)) => {
                let rule = PortMapRule {
                    protocol: pr,
                    external_port: ep,
                    internal_ip: ii,
                    internal_port: ip,
                };
                let ghost pre_dv = done.deep_view();
                done.push(rule);
                proof {
                    assert(done.deep_view() =~= pre_dv.push(rule@));
                }
            },
            _ => {
                return None;
            },
        }
    }
    let c = PortMapConfig { external_interface: iface_str, rules: done };
    proof {
        assert(spec_parse_portmap(text@) == Some(c@)) by {
            assert(c@ =~= match spec_parse_portmap(text@) {
                Some(x) => x,
                None => c@,
            });
        }
    }
    Some(c)
}

/// The specification state the executable parser's variables stand for.
pub open spec fn exec_pm_state(
    iface: Option<String>,
    done: Seq<PortMapRuleView>,
    in_rule: bool,
    protocol: Option<String>,
    external_port: Option<u16>,
    internal_ip: Option<String>,
    internal_port: Option<u16>,
) -> PmState {
    PmState {
        iface: match iface {
            Some(s) => Some(s@),
            None => None,
        },
        done,
        cur: if in_rule {
            Some(
                PartialRule {
                    protocol: match protocol {
                        Some(s) => Some(s@),
                        None => None,
                    },
                    external_port,
                    internal_ip: match internal_ip {
                        Some(s) => Some(s@),
                        None => None,
                    },
                    internal_port,
                },
            )
        } else {
            None
        },
    }
}

impl PortMapManager {
    /// Builds the manager from the state file's text: `None` (no file) or a
    /// text that does not parse both fall back to the empty default, so a
    /// missing or corrupt file never blocks construction.
    pub fn new(file_path: &str, file_text: Option<&str>) -> (r: Self)
        ensures
            r.file_path@ == file_path@,
            r.config@ == match file_text {
                Some(t) => match spec_parse_portmap(t@) {
                    Some(c) => c,
                    None => empty_portmap(),
                },
                None => empty_portmap(),
            },
    {
        let config = match file_text {
            Some(t) => match parse_portmap(t) {
                Some(c) => c,
                None => PortMapConfig::default(),
            },
            None => PortMapConfig::default(),
        };
        PortMapManager { config, file_path: file_path.to_owned() }
    }
}


// ---------------------------------------------------------------------------
// Round trip of the state file
// ---------------------------------------------------------------------------

/// A value that survives quoting and tokenization: no whitespace and no
/// double quote. Interface names, protocols and internal addresses are
/// written and read back under this shape; an empty interface name is fine.
pub open spec fn pm_text_ok(s: Seq<char>) -> bool {
    forall|i: int| 0 <= i < s.len() ==> !is_space(#[trigger] s[i]) && s[i] != '"'
}

pub open spec fn pm_rule_clean(r: PortMapRuleView) -> bool {
    &&& r.protocol.len() >= 1 && pm_text_ok(r.protocol)
    &&& r.internal_ip.len() >= 1 && pm_text_ok(r.internal_ip)
}

/// The states whose file text reads back exactly: every quoted value is a
/// single clean token (protocols and addresses are; the interface may also
/// be empty).
pub open spec fn pm_clean(c: PortMapConfigView) -> bool {
    &&& pm_text_ok(c.external_interface)
    &&& forall|i: int| 0 <= i < c.rules.len() ==> pm_rule_clean(#[trigger] c.rules[i])
}

proof fn pm_keyword_facts()
    ensures
        "external_interface"@.len() == 18 && "external_interface"@[0] == 'e',
        "protocol"@.len() == 8 && "protocol"@[0] == 'p',
        "external_port"@.len() == 13 && "external_port"@[0] == 'e',
        "internal_ip"@.len() == 11 && "internal_ip"@[0] == 'i',
        "internal_port"@.len() == 13 && "internal_port"@[0] == 'i',
        "[[rules]]"@.len() == 9,
        "="@ =~= seq!['='],
        forall|i: int|
            0 <= i < "external_interface"@.len() ==> !is_space(#[trigger] "external_interface"@[i]),
        forall|i: int| 0 <= i < "protocol"@.len() ==> !is_space(#[trigger] "protocol"@[i]),
        forall|i: int| 0 <= i < "external_port"@.len() ==> !is_space(#[trigger] "external_port"@[i]),
        forall|i: int| 0 <= i < "internal_ip"@.len() ==> !is_space(#[trigger] "internal_ip"@[i]),
        forall|i: int| 0 <= i < "internal_port"@.len() ==> !is_space(#[trigger] "internal_port"@[i]),
        forall|i: int| 0 <= i < "[[rules]]"@.len() ==> !is_space(#[trigger] "[[rules]]"@[i]),
{
    reveal_strlit("external_interface");
    reveal_strlit("protocol");
    reveal_strlit("external_port");
    reveal_strlit("internal_ip");
    reveal_strlit("internal_port");
    reveal_strlit("[[rules]]");
    reveal_strlit("=");
}

/// A `key = value` line tokenizes to its three tokens.
proof fn lemma_kv3_tokens(key: Seq<char>, valtok: Seq<char>)
    requires
        key.len() >= 1,
        forall|i: int| 0 <= i < key.len() ==> !is_space(#[trigger] key[i]),
        valtok.len() >= 1,
        forall|i: int| 0 <= i < valtok.len() ==> !is_space(#[trigger] valtok[i]),
    ensures
        spec_tokens(key + seq![' ', '=', ' '] + valtok) == seq![key, seq!['='], valtok],
{
    let rest = seq!['='] + seq![' '] + valtok;
    assert((key + seq![' ', '=', ' '] + valtok) =~= key + seq![' '] + rest);
    crate::text::lemma_tokens_word_space(key, rest);
    crate::text::lemma_tokens_word_space(seq!['='], valtok);
    crate::text::lemma_tokens_single(valtok);
    assert(seq![key] + (seq![seq!['=']] + seq![valtok]) =~= seq![key, seq!['='], valtok]);
}

/// A clean value reads back out of its quotes.
proof fn lemma_quoted_roundtrip(v: Seq<char>)
    requires
        forall|i: int| 0 <= i < v.len() ==> #[trigger] v[i] != '"',
    ensures
        quoted_val(quoted(v)) == Some(v),
        quoted(v).len() == v.len() + 2,
{
    let q = quoted(v);
    assert(q[0] == '"');
    assert(q[q.len() - 1] == '"');
    assert(forall|i: int| 1 <= i < q.len() - 1 ==> #[trigger] q[i] == v[i - 1]);
    assert(q.subrange(1, q.len() - 1) =~= v);
}

/// A port renders to a numeral that reads back as itself.
proof fn lemma_port_roundtrip(v: u16)
    ensures
        int_val(dec_chars(v as nat)) == Some(v),
        dec_chars(v as nat).len() >= 1,
        all_digits(dec_chars(v as nat)),
{
    crate::text::lemma_dec_chars_wf(v as nat);
    let s = dec_chars(v as nat);
    if v == 0 {
        assert(s =~= seq![crate::text::digit_char(0int)]);
        assert(s.len() == 1);
    }
    assert(crate::text::canon_dec_ok(s, 65535));
}

/// Characters of a clean quoted token are printable value characters.
proof fn lemma_quoted_token_wf(v: Seq<char>)
    requires
        forall|i: int| 0 <= i < v.len() ==> !is_space(#[trigger] v[i]),
    ensures
        quoted(v).len() >= 1,
        forall|i: int| 0 <= i < quoted(v).len() ==> !is_space(#[trigger] quoted(v)[i]),
{
    let q = quoted(v);
    assert forall|i: int| 0 <= i < q.len() implies !is_space(#[trigger] q[i]) by {
        if i == 0 || i == q.len() - 1 {
            assert(q[i] == '"');
        } else {
            assert(q[i] == v[i - 1]);
        }
    }
}

/// Digits are not whitespace.
proof fn lemma_digits_nonspace(s: Seq<char>)
    requires
        all_digits(s),
    ensures
        forall|i: int| 0 <= i < s.len() ==> !is_space(#[trigger] s[i]),
{
    assert forall|i: int| 0 <= i < s.len() implies !is_space(#[trigger] s[i]) by {
        assert(crate::text::is_digit(s[i]));
    }
}

/// Folding distributes over concatenation of line lists.
proof fn lemma_pm_fold_concat(st: PmState, a: Seq<Seq<char>>, b: Seq<Seq<char>>)
    ensures
        pm_fold(st, a + b) == match pm_fold(st, a) {
            Some(st2) => pm_fold(st2, b),
            None => None::<PmState>,
        },
    decreases a.len(),
{
    if a.len() == 0 {
        assert(a + b =~= b);
    } else {
        assert((a + b)[0] == a[0]);
        assert((a + b).len() > 0);
        assert((a + b).drop_first() =~= a.drop_first() + b);
        match pm_apply_line(st, a[0]) {
            Some(st2) => {
                lemma_pm_fold_concat(st2, a.drop_first(), b);
            },
            None => {},
        }
    }
}

/// The partial record with all four fields of `r` filled in.
pub open spec fn full_partial(r: PortMapRuleView) -> PartialRule {
    PartialRule {
        protocol: Some(r.protocol),
        external_port: Some(r.external_port),
        internal_ip: Some(r.internal_ip),
        internal_port: Some(r.internal_port),
    }
}

/// Folding one rendered rule block: the previously open block (if any) is
/// completed and committed, and the new block ends fully filled with `r`.
#[verifier::rlimit(60)]
proof fn lemma_pm_block(st: PmState, r: PortMapRuleView)
    requires
        pm_rule_clean(r),
        match st.cur {
            None => true,
            Some(p) => finish_partial(p) is Some,
        },
    ensures
        pm_fold(st, rule_block_lines(r)) == Some(
            PmState {
                iface: st.iface,
                done: match st.cur {
                    None => st.done,
                    Some(p) => st.done.push(finish_partial(p)->0),
                },
                cur: Some(full_partial(r)),
            },
        ),
{
    pm_keyword_facts();
    let lines = rule_block_lines(r);

    // Line 1: blank.
    let st1 = st;
    assert(spec_tokens(lines[0]) =~= Seq::<Seq<char>>::empty());
    assert(pm_apply_line(st, lines[0]) == Some(st1));

    // Line 2: the section header.
    crate::text::lemma_tokens_single("[[rules]]"@);
    let st2 = PmState {
        iface: st.iface,
        done: match st.cur {
            None => st.done,
            Some(p) => st.done.push(finish_partial(p)->0),
        },
        cur: Some(empty_partial()),
    };
    assert(pm_apply_line(st1, lines[1]) == Some(st2)) by {
        assert(spec_tokens("[[rules]]"@) == seq!["[[rules]]"@]);
        match st.cur {
            None => {
                assert(st2 =~= (PmState { cur: Some(empty_partial()), ..st1 }));
            },
            Some(p) => {
                assert(st2 =~= (PmState {
                    done: st1.done.push(finish_partial(p)->0),
                    cur: Some(empty_partial()),
                    ..st1
                }));
            },
        }
    }

    // Line 3: protocol.
    lemma_quoted_token_wf(r.protocol);
    lemma_quoted_roundtrip(r.protocol);
    lemma_kv3_tokens("protocol"@, quoted(r.protocol));
    let st3 = PmState {
        cur: Some(PartialRule { protocol: Some(r.protocol), ..empty_partial() }),
        ..st2
    };
    assert(pm_apply_line(st2, lines[2]) == Some(st3));

    // Line 4: external_port.
    lemma_port_roundtrip(r.external_port);
    lemma_digits_nonspace(dec_chars(r.external_port as nat));
    lemma_kv3_tokens("external_port"@, dec_chars(r.external_port as nat));
    let st4 = PmState {
        cur: Some(
            PartialRule {
                protocol: Some(r.protocol),
                external_port: Some(r.external_port),
                ..empty_partial()
            },
        ),
        ..st3
    };
    assert(pm_apply_line(st3, lines[3]) == Some(st4));

    // Line 5: internal_ip.
    lemma_quoted_token_wf(r.internal_ip);
    lemma_quoted_roundtrip(r.internal_ip);
    lemma_kv3_tokens("internal_ip"@, quoted(r.internal_ip));
    let st5 = PmState {
        cur: Some(
            PartialRule {
                protocol: Some(r.protocol),
                external_port: Some(r.external_port),
                internal_ip: Some(r.internal_ip),
                internal_port: None,
            },
        ),
        ..st4
    };
    assert(pm_apply_line(st4, lines[4]) == Some(st5));

    // Line 6: internal_port.
    lemma_port_roundtrip(r.internal_port);
    lemma_digits_nonspace(dec_chars(r.internal_port as nat));
    lemma_kv3_tokens("internal_port"@, dec_chars(r.internal_port as nat));
    let st6 = PmState { cur: Some(full_partial(r)), ..st5 };
    assert(pm_apply_line(st5, lines[5]) == Some(st6));

    // Chain the six lines.
    assert(lines =~= seq![lines[0]] + (seq![lines[1]] + (seq![lines[2]] + (seq![lines[3]] + (
    seq![lines[4]] + seq![lines[5]])))));
    lemma_pm_fold_one(st, lines[0], st1);
    lemma_pm_fold_concat(st, seq![lines[0]], seq![lines[1]] + (seq![lines[2]] + (seq![lines[3]]
        + (seq![lines[4]] + seq![lines[5]]))));
    lemma_pm_fold_concat(st1, seq![lines[1]], seq![lines[2]] + (seq![lines[3]] + (seq![lines[4]]
        + seq![lines[5]])));
    lemma_pm_fold_concat(st2, seq![lines[2]], seq![lines[3]] + (seq![lines[4]] + seq![lines[5]]));
    lemma_pm_fold_concat(st3, seq![lines[3]], seq![lines[4]] + seq![lines[5]]);
    lemma_pm_fold_concat(st4, seq![lines[4]], seq![lines[5]]);
    lemma_pm_fold_one(st1, lines[1], st2);
    lemma_pm_fold_one(st2, lines[2], st3);
    lemma_pm_fold_one(st3, lines[3], st4);
    lemma_pm_fold_one(st4, lines[4], st5);
    lemma_pm_fold_one(st5, lines[5], st6);
}

/// Folding a single line applies it.
proof fn lemma_pm_fold_one(st: PmState, line: Seq<char>, st2: PmState)
    requires
        pm_apply_line(st, line) == Some(st2),
    ensures
        pm_fold(st, seq![line]) == Some(st2),
{
    assert(seq![line].drop_first() =~= Seq::<Seq<char>>::empty());
    assert(seq![line][0] == line);
    assert(pm_fold(st2, Seq::<Seq<char>>::empty()) == Some(st2));
}

/// The rules a state has fully read: the committed ones plus the open
/// block, which must be complete.
pub open spec fn pm_committed(st: PmState) -> Seq<PortMapRuleView> {
    match st.cur {
        None => st.done,
        Some(p) => match finish_partial(p) {
            Some(r) => st.done.push(r),
            None => st.done,
        },
    }
}

/// A state whose open block, if any, is complete.
pub open spec fn pm_ok_state(st: PmState) -> bool {
    match st.cur {
        None => true,
        Some(p) => finish_partial(p) is Some,
    }
}

/// Folding the rendered blocks of a clean rule list appends exactly those
/// rules to what the state had read.
proof fn lemma_pm_blocks(st: PmState, rs: Seq<PortMapRuleView>)
    requires
        pm_ok_state(st),
        forall|i: int| 0 <= i < rs.len() ==> pm_rule_clean(#[trigger] rs[i]),
    ensures
        match pm_fold(st, rules_lines(rs)) {
            Some(st2) => st2.iface == st.iface && pm_ok_state(st2) && pm_committed(st2)
                == pm_committed(st) + rs,
            None => false,
        },
    decreases rs.len(),
{
    if rs.len() == 0 {
        assert(rules_lines(rs).len() == 0);
        assert(pm_fold(st, rules_lines(rs)) == Some(st));
        assert(pm_committed(st) + rs =~= pm_committed(st));
    } else {
        lemma_pm_block(st, rs[0]);
        let st1 = PmState {
            iface: st.iface,
            done: match st.cur {
                None => st.done,
                Some(p) => st.done.push(finish_partial(p)->0),
            },
            cur: Some(full_partial(rs[0])),
        };
        assert(finish_partial(full_partial(rs[0])) == Some(rs[0]));
        assert(pm_ok_state(st1));
        assert(pm_committed(st1) == pm_committed(st).push(rs[0]));
        assert(forall|i: int|
            0 <= i < rs.drop_first().len() ==> pm_rule_clean(#[trigger] rs.drop_first()[i]));
        lemma_pm_blocks(st1, rs.drop_first());
        lemma_pm_fold_concat(st, rule_block_lines(rs[0]), rules_lines(rs.drop_first()));
        assert(rules_lines(rs) == rule_block_lines(rs[0]) + rules_lines(rs.drop_first()));
        match pm_fold(st, rules_lines(rs)) {
            Some(st2) => {
                assert(pm_committed(st2) == pm_committed(st1) + rs.drop_first());
                assert(pm_committed(st).push(rs[0]) + rs.drop_first() =~= pm_committed(st) + rs);
            },
            None => {
                assert(false);
            },
        }
    }
}

/// A `key = value` line holds no newline when key and value token do not.
proof fn lemma_kv3_no_nl(key: Seq<char>, valtok: Seq<char>)
    requires
        forall|i: int| 0 <= i < key.len() ==> !is_space(#[trigger] key[i]),
        forall|i: int| 0 <= i < valtok.len() ==> !is_space(#[trigger] valtok[i]),
    ensures
        line_no_nl(key + seq![' ', '=', ' '] + valtok),
{
    let l = key + seq![' ', '=', ' '] + valtok;
    assert forall|i: int| 0 <= i < l.len() implies #[trigger] l[i] != '\n' by {
        if i < key.len() {
            assert(l[i] == key[i]);
        } else if i < key.len() + 3 {
            assert(l[i] == seq![' ', '=', ' '][i - key.len()]);
        } else {
            assert(l[i] == valtok[i - key.len() - 3]);
        }
    }
}

/// No rendered line of the state file holds a newline.
proof fn lemma_pm_lines_no_nl(c: PortMapConfigView)
    requires
        pm_clean(c),
    ensures
        lines_no_nl(portmap_lines(c)),
{
    pm_keyword_facts();
    lemma_quoted_token_wf(c.external_interface);
    lemma_kv3_no_nl("external_interface"@, quoted(c.external_interface));
    lemma_pm_rules_lines_no_nl(c.rules);
    let all = portmap_lines(c);
    assert forall|k: int| 0 <= k < all.len() implies line_no_nl(#[trigger] all[k]) by {
        if k == 0 {
            assert(all[0] == kv_str_line("external_interface"@, c.external_interface));
        } else {
            assert(all[k] == rules_lines(c.rules)[k - 1]);
        }
    }
}

proof fn lemma_pm_rules_lines_no_nl(rs: Seq<PortMapRuleView>)
    requires
        forall|i: int| 0 <= i < rs.len() ==> pm_rule_clean(#[trigger] rs[i]),
    ensures
        lines_no_nl(rules_lines(rs)),
    decreases rs.len(),
{
    pm_keyword_facts();
    if rs.len() > 0 {
        let r = rs[0];
        let block = rule_block_lines(r);
        lemma_quoted_token_wf(r.protocol);
        lemma_quoted_token_wf(r.internal_ip);
        lemma_port_roundtrip(r.external_port);
        lemma_port_roundtrip(r.internal_port);
        lemma_digits_nonspace(dec_chars(r.external_port as nat));
        lemma_digits_nonspace(dec_chars(r.internal_port as nat));
        lemma_kv3_no_nl("protocol"@, quoted(r.protocol));
        lemma_kv3_no_nl("external_port"@, dec_chars(r.external_port as nat));
        lemma_kv3_no_nl("internal_ip"@, quoted(r.internal_ip));
        lemma_kv3_no_nl("internal_port"@, dec_chars(r.internal_port as nat));
        assert(forall|i: int| 0 <= i < rs.drop_first().len() ==> pm_rule_clean(
            #[trigger] rs.drop_first()[i],
        ));
        lemma_pm_rules_lines_no_nl(rs.drop_first());
        let all = rules_lines(rs);
        assert(all == block + rules_lines(rs.drop_first()));
        assert forall|k: int| 0 <= k < all.len() implies line_no_nl(#[trigger] all[k]) by {
            if k < 6 {
                assert(all[k] == block[k]);
                if k == 0 {
                    assert(block[0] =~= Seq::<char>::empty());
                } else if k == 1 {
                    assert(block[1] == "[[rules]]"@);
                }
            } else {
                assert(all[k] == rules_lines(rs.drop_first())[k - 6]);
            }
        }
    }
}

/// Round trip of the state file: a clean state rendered to text and parsed
/// back yields the same interface and the same rules, in order.
pub proof fn lemma_portmap_roundtrip(c: PortMapConfigView)
    requires
        pm_clean(c),
    ensures
        spec_parse_portmap(spec_render_portmap(c)) == Some(c),
{
    pm_keyword_facts();
    lemma_pm_lines_no_nl(c);
    crate::udhcpd_config::lemma_lines_join(portmap_lines(c));

    // The interface line takes the initial state to "interface known".
    let line0 = kv_str_line("external_interface"@, c.external_interface);
    lemma_quoted_token_wf(c.external_interface);
    lemma_quoted_roundtrip(c.external_interface);
    lemma_kv3_tokens("external_interface"@, quoted(c.external_interface));
    let st1 = PmState { iface: Some(c.external_interface), done: Seq::empty(), cur: None };
    assert(pm_apply_line(pm_initial(), line0) == Some(st1)) by {
        assert(st1 =~= (PmState { iface: Some(c.external_interface), ..pm_initial() }));
    }
    lemma_pm_fold_one(pm_initial(), line0, st1);

    // The rule blocks append exactly the rules.
    lemma_pm_blocks(st1, c.rules);
    lemma_pm_fold_concat(pm_initial(), seq![line0], rules_lines(c.rules));
    assert(portmap_lines(c) == seq![line0] + rules_lines(c.rules));
    match pm_fold(pm_initial(), portmap_lines(c)) {
        Some(st2) => {
            assert(pm_committed(st2) =~= c.rules);
            assert(st2.iface == Some(c.external_interface));
            match spec_parse_portmap(spec_render_portmap(c)) {
                Some(parsed) => {
                    assert(parsed =~= c);
                },
                None => {
                    assert(false);
                },
            }
        },
        None => {
            assert(false);
        },
    }
}

} // verus!
