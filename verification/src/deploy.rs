//! Deploy-file configuration: which service to search and on which servers.
//!
//! Deploy files are block-style YAML mappings.  This module reads the
//! subset the searcher needs — the top-level `service` scalar, the
//! `servers` section (a plain host list, role keys over host lists, or
//! role keys over mappings with a `hosts` list), and `ssh.user` — line by
//! line, by indentation, skipping everything else (comments, other keys,
//! nested blocks such as role labels).  Flow-style collections, anchors
//! and multi-line scalars are outside the subset and are ignored.

use vstd::prelude::*;

use crate::chars::chars_of;
use crate::chars::copy_range;
use crate::chars::find_char;
use crate::chars::find_char_exec;
use crate::chars::spec_split;
use crate::chars::spec_trim;
use crate::chars::split_chars;
use crate::chars::str_eq;
use crate::chars::string_from_chars;
use crate::chars::trim_bounds;

verus! {

// --- line analysis --------------------------------------------------------

/// Ghost model of one analyzed line.
pub ghost enum LineKindV {
    /// Blank or comment: carries no content.
    Blank,
    /// A `- value` sequence item.
    Item(Seq<char>),
    /// A `key: value` pair (the value may be empty: a section header).
    KeyVal(Seq<char>, Seq<char>),
    /// Anything else; ignored.
    Other,
}

pub ghost struct LineV {
    pub indent: int,
    pub kind: LineKindV,
}

/// One analyzed line.
pub enum LineKind {
    Blank,
    Item(String),
    KeyVal(String, String),
    Other,
}

pub struct ParsedLine {
    pub indent: usize,
    pub kind: LineKind,
}

impl View for ParsedLine {
    type V = LineV;

    open spec fn view(&self) -> LineV {
        LineV {
            indent: self.indent as int,
            kind: match self.kind {
                LineKind::Blank => LineKindV::Blank,
                LineKind::Item(v) => LineKindV::Item(v@),
                LineKind::KeyVal(k, v) => LineKindV::KeyVal(k@, v@),
                LineKind::Other => LineKindV::Other,
            },
        }
    }
}

/// The line without a trailing carriage return.
pub open spec fn spec_strip_cr(l: Seq<char>) -> Seq<char> {
    if l.len() > 0 && l.last() == '\r' {
        l.drop_last()
    } else {
        l
    }
}

/// Count of leading spaces.
pub open spec fn spec_indent_of(l: Seq<char>) -> int
    decreases l.len(),
{
    if l.len() > 0 && l[0] == ' ' {
        1 + spec_indent_of(l.drop_first())
    } else {
        0
    }
}

proof fn lemma_indent_of(l: Seq<char>, k: int)
    requires
        0 <= k <= l.len(),
        forall|j: int| 0 <= j < k ==> l[j] == ' ',
        k < l.len() ==> l[k] != ' ',
    ensures
        spec_indent_of(l) == k,
    decreases k,
{
    if k == 0 {
    } else {
        lemma_indent_of(l.drop_first(), k - 1);
    }
}

/// A scalar value: trimmed, and stripped of one pair of surrounding quotes.
pub open spec fn spec_clean_value(v: Seq<char>) -> Seq<char> {
    let t = spec_trim(v);
    if t.len() >= 2 && ((t[0] == '"' && t.last() == '"') || (t[0] == '\'' && t.last() == '\'')) {
        t.subrange(1, t.len() - 1)
    } else {
        t
    }
}

/// The meaning of a line's content after its indentation.
pub open spec fn spec_line_kind(rest: Seq<char>) -> LineKindV {
    if spec_trim(rest).len() == 0 {
        LineKindV::Blank
    } else if rest[0] == '#' {
        LineKindV::Blank
    } else if rest[0] == '-' && (rest.len() == 1 || rest[1] == ' ') {
        LineKindV::Item(spec_clean_value(rest.skip(1)))
    } else {
        match find_char(rest, ':') {
            Some(i) => LineKindV::KeyVal(
                spec_trim(rest.take(i)),
                spec_clean_value(rest.skip(i + 1)),
            ),
            None => LineKindV::Other,
        }
    }
}

/// What one raw line means.
pub open spec fn spec_analyze_line(raw: Seq<char>) -> LineV {
    let l = spec_strip_cr(raw);
    let ind = spec_indent_of(l);
    LineV { indent: ind, kind: spec_line_kind(l.skip(ind)) }
}

/// Trim and unquote a scalar value.
fn clean_value(v: &Vec<char>) -> (r: String)
    ensures
        r@ == spec_clean_value(v@),
{
    let (a, b) = trim_bounds(v);
    let t = copy_range(v, a, b);
    let n = t.len();
    if n >= 2 && ((t[0] == '"' && t[n - 1] == '"') || (t[0] == '\'' && t[n - 1] == '\'')) {
        let inner = copy_range(&t, 1, n - 1);
        string_from_chars(inner.as_slice())
    } else {
        string_from_chars(t.as_slice())
    }
}

/// Classify a line's content after its indentation.
#[verifier::rlimit(100)]
fn classify_rest(rest: &Vec<char>) -> (r: LineKind)
    ensures
        (ParsedLine { indent: 0, kind: r })@.kind == spec_line_kind(rest@),
{
    let (ta, tb) = trim_bounds(rest);
    if ta == tb {
        return LineKind::Blank;
    }
    if rest[0] == '#' {
        return LineKind::Blank;
    }
    if rest[0] == '-' && (rest.len() == 1 || rest[1] == ' ') {
        let tail = copy_range(rest, 1, rest.len());
        proof {
            assert(tail@ =~= rest@.skip(1));
        }
        return LineKind::Item(clean_value(&tail));
    }
    match find_char_exec(rest, ':') {
        Some(i) => {
            let n = rest.len();
            proof {
                crate::chars::lemma_find_char(rest@, ':');
            }
            let keypart = copy_range(rest, 0, i);
            let valpart = copy_range(rest, i + 1, n);
            proof {
                assert(keypart@ =~= rest@.take(i as int));
                assert(valpart@ =~= rest@.skip(i + 1));
            }
            let (ka, kb) = trim_bounds(&keypart);
            let kt = copy_range(&keypart, ka, kb);
            LineKind::KeyVal(string_from_chars(kt.as_slice()), clean_value(&valpart))
        },
        None => LineKind::Other,
    }
}

/// Analyze one raw line: indentation and kind.
fn analyze_line(raw: &Vec<char>) -> (r: ParsedLine)
    ensures
        r@ == spec_analyze_line(raw@),
{
    let mut l = raw.clone();
    proof {
        assert(l@ =~= raw@);
    }
    let n0 = l.len();
    if n0 > 0 && l[n0 - 1] == '\r' {
        let _ = l.pop();
    }
    proof {
        assert(l@ =~= spec_strip_cr(raw@));
    }
    let n = l.len();
    let mut ind: usize = 0;
    while ind < n && l[ind] == ' '
        invariant
            n == l@.len(),
            ind <= n,
            forall|j: int| 0 <= j < ind ==> l@[j] == ' ',
        decreases n - ind,
    {
        ind = ind + 1;
    }
    proof {
        lemma_indent_of(l@, ind as int);
    }
    let rest = copy_range(&l, ind, n);
    proof {
        assert(rest@ =~= l@.skip(ind as int));
    }
    let kind = classify_rest(&rest);
    ParsedLine { indent: ind, kind }
}

// --- the extraction state machine ------------------------------------------

/// Where in the document the scan currently stands.  The integers are the
/// indentation of the section-opening lines.
#[derive(Debug, Clone, PartialEq, Eq, Structural)]
pub enum DeployCtx {
    /// At the top level.
    Top,
    /// Inside the `servers` section.
    Servers(usize),
    /// Inside one role under `servers`.
    Role(usize, usize),
    /// Inside a role's `hosts` list.
    RoleHosts(usize, usize, usize),
    /// Inside an ignored block under a role (labels, options, ...).
    RoleSkip(usize, usize, usize),
    /// Inside the `ssh` section.
    Ssh(usize),
}

/// Ghost model of the accumulated extraction state.
pub ghost struct DeployAccV {
    pub service: Option<Seq<char>>,
    pub ssh_user: Option<Seq<char>>,
    pub simple: Seq<Seq<char>>,
    pub roles: Seq<(Seq<char>, Seq<Seq<char>>)>,
    pub cur_role: Option<(Seq<char>, Seq<Seq<char>>)>,
    pub saw_servers: bool,
    pub ctx: DeployCtx,
}

/// The accumulated extraction state.
pub struct DeployAcc {
    pub service: Option<String>,
    pub ssh_user: Option<String>,
    pub simple: Vec<String>,
    pub roles: Vec<(String, Vec<String>)>,
    pub cur_role: Option<(String, Vec<String>)>,
    pub saw_servers: bool,
    pub ctx: DeployCtx,
}

impl View for DeployAcc {
    type V = DeployAccV;

    open spec fn view(&self) -> DeployAccV {
        DeployAccV {
            service: self.service.deep_view(),
            ssh_user: self.ssh_user.deep_view(),
            simple: self.simple.deep_view(),
            roles: self.roles@.map_values(
                |p: (String, Vec<String>)| (p.0@, p.1.deep_view()),
            ),
            cur_role: match self.cur_role {
                Some(ref p) => Some((p.0@, p.1.deep_view())),
                None => None,
            },
            saw_servers: self.saw_servers,
            ctx: self.ctx,
        }
    }
}

/// How deeply nested a context is (for termination of popping).
pub open spec fn ctx_rank(c: DeployCtx) -> int {
    match c {
        DeployCtx::Top => 0,
        DeployCtx::Servers(_) => 1,
        DeployCtx::Ssh(_) => 1,
        DeployCtx::Role(_, _) => 2,
        DeployCtx::RoleHosts(_, _, _) => 3,
        DeployCtx::RoleSkip(_, _, _) => 3,
    }
}

/// Close every section whose body the line at `ind` has dedented out of.
/// Closing a role moves the collected role onto the role list.
pub open spec fn spec_pop(acc: DeployAccV, ind: int) -> DeployAccV
    decreases ctx_rank(acc.ctx),
{
    match acc.ctx {
        DeployCtx::Top => acc,
        DeployCtx::Servers(si) => {
            if ind <= si {
                DeployAccV { ctx: DeployCtx::Top, ..acc }
            } else {
                acc
            }
        },
        DeployCtx::Ssh(si) => {
            if ind <= si {
                DeployAccV { ctx: DeployCtx::Top, ..acc }
            } else {
                acc
            }
        },
        DeployCtx::Role(si, ri) => {
            if ind <= ri {
                spec_pop(
                    DeployAccV {
                        roles: match acc.cur_role {
                            Some(p) => acc.roles.push(p),
                            None => acc.roles,
                        },
                        cur_role: None,
                        ctx: DeployCtx::Servers(si),
                        ..acc
                    },
                    ind,
                )
            } else {
                acc
            }
        },
        DeployCtx::RoleHosts(si, ri, hi) => {
            if ind <= hi {
                spec_pop(DeployAccV { ctx: DeployCtx::Role(si, ri), ..acc }, ind)
            } else {
                acc
            }
        },
        DeployCtx::RoleSkip(si, ri, ki) => {
            if ind <= ki {
                spec_pop(DeployAccV { ctx: DeployCtx::Role(si, ri), ..acc }, ind)
            } else {
                acc
            }
        },
    }
}

/// What one line contributes, once the dedent has been applied.
pub open spec fn spec_dispatch(acc: DeployAccV, line: LineV) -> DeployAccV {
    match acc.ctx {
        DeployCtx::Top => {
            if line.indent == 0 {
                match line.kind {
                    LineKindV::KeyVal(k, v) => {
                        if k == "service"@ && v.len() > 0 {
                            DeployAccV { service: Some(v), ..acc }
                        } else if k == "servers"@ && v.len() == 0 {
                            DeployAccV {
                                saw_servers: true,
                                ctx: DeployCtx::Servers(line.indent as usize),
                                ..acc
                            }
                        } else if k == "ssh"@ && v.len() == 0 {
                            DeployAccV { ctx: DeployCtx::Ssh(line.indent as usize), ..acc }
                        } else {
                            acc
                        }
                    },
                    _ => acc,
                }
            } else {
                acc
            }
        },
        DeployCtx::Servers(si) => match line.kind {
            LineKindV::Item(v) => DeployAccV { simple: acc.simple.push(v), ..acc },
            LineKindV::KeyVal(k, v) => {
                if v.len() == 0 {
                    DeployAccV {
                        cur_role: Some((k, Seq::empty())),
                        ctx: DeployCtx::Role(si, line.indent as usize),
                        ..acc
                    }
                } else {
                    acc
                }
            },
            _ => acc,
        },
        DeployCtx::Role(si, ri) => match line.kind {
            LineKindV::Item(v) => DeployAccV {
                cur_role: match acc.cur_role {
                    Some(p) => Some((p.0, p.1.push(v))),
                    None => None,
                },
                ..acc
            },
            LineKindV::KeyVal(k, v) => {
                if v.len() == 0 {
                    if k == "hosts"@ {
                        DeployAccV { ctx: DeployCtx::RoleHosts(si, ri, line.indent as usize), ..acc }
                    } else {
                        DeployAccV { ctx: DeployCtx::RoleSkip(si, ri, line.indent as usize), ..acc }
                    }
                } else {
                    acc
                }
            },
            _ => acc,
        },
        DeployCtx::RoleHosts(_, _, _) => match line.kind {
            LineKindV::Item(v) => DeployAccV {
                cur_role: match acc.cur_role {
                    Some(p) => Some((p.0, p.1.push(v))),
                    None => None,
                },
                ..acc
            },
            _ => acc,
        },
        DeployCtx::RoleSkip(_, _, _) => acc,
        DeployCtx::Ssh(_) => match line.kind {
            LineKindV::KeyVal(k, v) => {
                if k == "user"@ && v.len() > 0 {
                    DeployAccV { ssh_user: Some(v), ..acc }
                } else {
                    acc
                }
            },
            _ => acc,
        },
    }
}

/// One line's full effect on the state.
pub open spec fn spec_step(acc: DeployAccV, line: LineV) -> DeployAccV {
    match line.kind {
        LineKindV::Blank => acc,
        _ => spec_dispatch(spec_pop(acc, line.indent), line),
    }
}

/// The whole document's effect, line by line.
pub open spec fn spec_fold(acc: DeployAccV, lines: Seq<LineV>) -> DeployAccV
    decreases lines.len(),
{
    if lines.len() == 0 {
        acc
    } else {
        spec_step(spec_fold(acc, lines.drop_last()), lines.last())
    }
}

/// The empty starting state.
pub open spec fn spec_init_acc() -> DeployAccV {
    DeployAccV {
        service: None,
        ssh_user: None,
        simple: Seq::empty(),
        roles: Seq::empty(),
        cur_role: None,
        saw_servers: false,
        ctx: DeployCtx::Top,
    }
}

/// What scanning a whole deploy document extracts.
pub open spec fn spec_extract(text: Seq<char>) -> DeployAccV {
    spec_pop(
        spec_fold(
            spec_init_acc(),
            spec_split(text, '\n').map_values(|l: Seq<char>| spec_analyze_line(l)),
        ),
        0,
    )
}

fn pop_exec(acc: DeployAcc, ind: usize) -> (r: DeployAcc)
    ensures
        r@ == spec_pop(acc@, ind as int),
    decreases ctx_rank(acc.ctx),
{
    match acc.ctx {
        DeployCtx::Top => acc,
        DeployCtx::Servers(si) => {
            if ind <= si {
                DeployAcc { ctx: DeployCtx::Top, ..acc }
            } else {
                acc
            }
        },
        DeployCtx::Ssh(si) => {
            if ind <= si {
                DeployAcc { ctx: DeployCtx::Top, ..acc }
            } else {
                acc
            }
        },
        DeployCtx::Role(si, ri) => {
            if ind <= ri {
                let DeployAcc { service, ssh_user, simple, mut roles, cur_role, saw_servers, ctx: _ } =
                    acc;
                let ghost oldroles = roles@.map_values(
                    |p: (String, Vec<String>)| (p.0@, p.1.deep_view()),
                );
                match cur_role {
                    Some(p) => {
                        let ghost pv = (p.0@, p.1.deep_view());
                        roles.push(p);
                        proof {
                            assert(roles@.map_values(
                                |q: (String, Vec<String>)| (q.0@, q.1.deep_view()),
                            ) =~= oldroles.push(pv));
                        }
                    },
                    None => {},
                };
                pop_exec(
                    DeployAcc {
                        service,
                        ssh_user,
                        simple,
                        roles,
                        cur_role: None,
                        saw_servers,
                        ctx: DeployCtx::Servers(si),
                    },
                    ind,
                )
            } else {
                acc
            }
        },
        DeployCtx::RoleHosts(si, ri, hi) => {
            if ind <= hi {
                pop_exec(DeployAcc { ctx: DeployCtx::Role(si, ri), ..acc }, ind)
            } else {
                acc
            }
        },
        DeployCtx::RoleSkip(si, ri, ki) => {
            if ind <= ki {
                pop_exec(DeployAcc { ctx: DeployCtx::Role(si, ri), ..acc }, ind)
            } else {
                acc
            }
        },
    }
}

fn dispatch_exec(acc: DeployAcc, line: ParsedLine) -> (r: DeployAcc)
    ensures
        r@ == spec_dispatch(acc@, line@),
{
    match acc.ctx {
        DeployCtx::Top => {
            if line.indent == 0 {
                match line.kind {
                    LineKind::KeyVal(k, v) => {
                        if str_eq(k.as_str(), "service") && !v.as_str().is_empty() {
                            DeployAcc { service: Some(v), ..acc }
                        } else if str_eq(k.as_str(), "servers") && v.as_str().is_empty() {
                            DeployAcc { saw_servers: true, ctx: DeployCtx::Servers(0), ..acc }
                        } else if str_eq(k.as_str(), "ssh") && v.as_str().is_empty() {
                            DeployAcc { ctx: DeployCtx::Ssh(0), ..acc }
                        } else {
                            acc
                        }
                    },
                    _ => acc,
                }
            } else {
                acc
            }
        },
        DeployCtx::Servers(si) => match line.kind {
            LineKind::Item(v) => {
                let ghost vv = v@;
                let mut acc = acc;
                let ghost oldsimple = acc.simple.deep_view();
                acc.simple.push(v);
                proof {
                    assert(acc.simple.deep_view() =~= oldsimple.push(vv));
                }
                acc
            },
            LineKind::KeyVal(k, v) => {
                if v.as_str().is_empty() {
                    let hosts: Vec<String> = Vec::new();
                    proof {
                        assert(hosts.deep_view() =~= Seq::<Seq<char>>::empty());
                    }
                    DeployAcc {
                        cur_role: Some((k, hosts)),
                        ctx: DeployCtx::Role(si, line.indent),
                        ..acc
                    }
                } else {
                    acc
                }
            },
            _ => acc,
        },
        DeployCtx::Role(_, _) | DeployCtx::RoleHosts(_, _, _) => {
            let is_role = matches!(acc.ctx, DeployCtx::Role(_, _));
            match line.kind {
                LineKind::Item(v) => {
                    let ghost vv = v@;
                    let mut acc = acc;
                    let cur = acc.cur_role;
                    match cur {
                        Some(p) => {
                            let (name, mut hosts) = p;
                            let ghost oldhosts = hosts.deep_view();
                            hosts.push(v);
                            proof {
                                assert(hosts.deep_view() =~= oldhosts.push(vv));
                            }
                            acc.cur_role = Some((name, hosts));
                        },
                        None => {
                            acc.cur_role = None;
                        },
                    }
                    acc
                },
                LineKind::KeyVal(k, v) => {
                    if is_role {
                        match acc.ctx {
                            DeployCtx::Role(si, ri) => {
                                if v.as_str().is_empty() {
                                    if str_eq(k.as_str(), "hosts") {
                                        DeployAcc {
                                            ctx: DeployCtx::RoleHosts(si, ri, line.indent),
                                            ..acc
                                        }
                                    } else {
                                        DeployAcc {
                                            ctx: DeployCtx::RoleSkip(si, ri, line.indent),
                                            ..acc
                                        }
                                    }
                                } else {
                                    acc
                                }
                            },
                            _ => acc,
                        }
                    } else {
                        acc
                    }
                },
                _ => acc,
            }
        },
        DeployCtx::RoleSkip(_, _, _) => acc,
        DeployCtx::Ssh(_) => match line.kind {
            LineKind::KeyVal(k, v) => {
                if str_eq(k.as_str(), "user") && !v.as_str().is_empty() {
                    DeployAcc { ssh_user: Some(v), ..acc }
                } else {
                    acc
                }
            },
            _ => acc,
        },
    }
}

/// Scan a whole deploy document.
pub fn extract_deploy(text: &str) -> (r: DeployAcc)
    ensures
        r@ == spec_extract(text@),
{
    let cs = chars_of(text);
    let lines = split_chars(&cs, '\n');
    let ghost linevs = spec_split(text@, '\n').map_values(|l: Seq<char>| spec_analyze_line(l));
    let mut acc = DeployAcc {
        service: None,
        ssh_user: None,
        simple: Vec::new(),
        roles: Vec::new(),
        cur_role: None,
        saw_servers: false,
        ctx: DeployCtx::Top,
    };
    proof {
        assert(acc.simple.deep_view() =~= Seq::<Seq<char>>::empty());
        assert(acc.roles@.map_values(|p: (String, Vec<String>)| (p.0@, p.1.deep_view())) =~= Seq::<
            (Seq<char>, Seq<Seq<char>>),
        >::empty());
        assert(acc@ == spec_init_acc());
        assert(linevs.take(0) =~= Seq::<LineV>::empty());
    }
    let mut i: usize = 0;
    while i < lines.len()
        invariant
            lines.deep_view() == spec_split(text@, '\n'),
            linevs == spec_split(text@, '\n').map_values(|l: Seq<char>| spec_analyze_line(l)),
            linevs.len() == lines@.len(),
            i <= lines@.len(),
            acc@ == spec_fold(spec_init_acc(), linevs.take(i as int)),
        decreases lines@.len() - i,
    {
        proof {
            assert(lines@[i as int]@ =~= lines.deep_view()[i as int]);
            assert(linevs.take(i + 1 as int).drop_last() =~= linevs.take(i as int));
            assert(linevs.take(i + 1 as int).last() == linevs[i as int]);
        }
        let line = analyze_line(&lines[i]);
        match line.kind {
            LineKind::Blank => {},
            _ => {
                let popped = pop_exec(acc, line.indent);
                acc = dispatch_exec(popped, line);
            },
        }
        i = i + 1;
    }
    proof {
        assert(linevs.take(linevs.len() as int) =~= linevs);
    }
    pop_exec(acc, 0)
}

// --- the searcher configuration --------------------------------------------

/// Ghost model of the raw extracted configuration.
pub ghost struct RawDeployV {
    pub service: Option<Seq<char>>,
    pub ssh_user: Option<Seq<char>>,
    pub simple: Seq<Seq<char>>,
    pub roles: Seq<(Seq<char>, Seq<Seq<char>>)>,
    pub has_servers: bool,
}

/// The raw fields extracted from a deploy document, before validation.
#[derive(Debug, Clone)]
pub struct RawDeployConfig {
    pub service: Option<String>,
    pub ssh_user: Option<String>,
    pub simple_servers: Vec<String>,
    pub role_servers: Vec<(String, Vec<String>)>,
    pub has_servers_section: bool,
}

impl View for RawDeployConfig {
    type V = RawDeployV;

    open spec fn view(&self) -> RawDeployV {
        RawDeployV {
            service: self.service.deep_view(),
            ssh_user: self.ssh_user.deep_view(),
            simple: self.simple_servers.deep_view(),
            roles: self.role_servers@.map_values(
                |p: (String, Vec<String>)| (p.0@, p.1.deep_view()),
            ),
            has_servers: self.has_servers_section,
        }
    }
}

/// The raw configuration a whole deploy document describes.
pub open spec fn spec_raw_config(text: Seq<char>) -> RawDeployV {
    let a = spec_extract(text);
    RawDeployV {
        service: a.service,
        ssh_user: a.ssh_user,
        simple: a.simple,
        roles: a.roles,
        has_servers: a.saw_servers,
    }
}

/// Read the raw configuration out of a deploy document.
pub fn parse_deploy_text(text: &str) -> (r: RawDeployConfig)
    ensures
        r@ == spec_raw_config(text@),
{
    let acc = extract_deploy(text);
    let DeployAcc { service, ssh_user, simple, roles, cur_role: _, saw_servers, ctx: _ } = acc;
    RawDeployConfig {
        service,
        ssh_user,
        simple_servers: simple,
        role_servers: roles,
        has_servers_section: saw_servers,
    }
}

// --- choosing and cleaning the server list ---------------------------------

/// Hosts of every role named `web`, in order.
pub open spec fn spec_web_hosts(roles: Seq<(Seq<char>, Seq<Seq<char>>)>) -> Seq<Seq<char>>
    decreases roles.len(),
{
    if roles.len() == 0 {
        Seq::empty()
    } else {
        spec_web_hosts(roles.drop_last()) + if roles.last().0 == "web"@ {
            roles.last().1
        } else {
            Seq::empty()
        }
    }
}

/// Hosts of every role not named `web`, in order.
pub open spec fn spec_nonweb_hosts(roles: Seq<(Seq<char>, Seq<Seq<char>>)>) -> Seq<Seq<char>>
    decreases roles.len(),
{
    if roles.len() == 0 {
        Seq::empty()
    } else {
        spec_nonweb_hosts(roles.drop_last()) + if roles.last().0 == "web"@ {
            Seq::empty()
        } else {
            roles.last().1
        }
    }
}

/// Role-based server lists are flattened with the `web` role first.
pub open spec fn spec_flatten_roles(roles: Seq<(Seq<char>, Seq<Seq<char>>)>) -> Seq<Seq<char>> {
    spec_web_hosts(roles) + spec_nonweb_hosts(roles)
}

/// The server list before de-duplication: role-based when any role was
/// present, else the plain list.
pub open spec fn spec_chosen_servers(raw: RawDeployV) -> Seq<Seq<char>> {
    if raw.roles.len() > 0 {
        spec_flatten_roles(raw.roles)
    } else {
        raw.simple
    }
}

/// Duplicates removed, first occurrence kept.
pub open spec fn spec_dedup(s: Seq<Seq<char>>) -> Seq<Seq<char>>
    decreases s.len(),
{
    if s.len() == 0 {
        Seq::empty()
    } else {
        let d = spec_dedup(s.drop_last());
        if s.drop_last().contains(s.last()) {
            d
        } else {
            d.push(s.last())
        }
    }
}

/// The final server list of a raw configuration.
pub open spec fn spec_final_servers(raw: RawDeployV) -> Seq<Seq<char>> {
    spec_dedup(spec_chosen_servers(raw))
}

fn push_all(out: &mut Vec<String>, hosts: &Vec<String>)
    ensures
        final(out).deep_view() == old(out).deep_view() + hosts.deep_view(),
{
    let mut i: usize = 0;
    proof {
        assert(old(out).deep_view() + hosts.deep_view().take(0) =~= old(out).deep_view());
    }
    while i < hosts.len()
        invariant
            i <= hosts@.len(),
            hosts.deep_view().len() == hosts@.len(),
            out.deep_view() == old(out).deep_view() + hosts.deep_view().take(i as int),
        decreases hosts@.len() - i,
    {
        let ghost before = out.deep_view();
        out.push(hosts[i].clone());
        proof {
            assert(hosts.deep_view()[i as int] == hosts@[i as int]@);
            assert(out.deep_view() =~= before.push(hosts@[i as int]@));
            assert(before.push(hosts.deep_view()[i as int]) =~= old(out).deep_view()
                + hosts.deep_view().take(i + 1 as int));
        }
        i = i + 1;
    }
    proof {
        assert(hosts.deep_view().take(hosts@.len() as int) =~= hosts.deep_view());
    }
}

/// Flatten role-based servers, `web` roles first.
fn flatten_roles(roles: &Vec<(String, Vec<String>)>) -> (r: Vec<String>)
    ensures
        r.deep_view() == spec_flatten_roles(
            roles@.map_values(|p: (String, Vec<String>)| (p.0@, p.1.deep_view())),
        ),
{
    let ghost rv = roles@.map_values(|p: (String, Vec<String>)| (p.0@, p.1.deep_view()));
    let mut out: Vec<String> = Vec::new();
    let mut i: usize = 0;
    proof {
        assert(out.deep_view() =~= Seq::<Seq<char>>::empty());
        assert(rv.take(0) =~= Seq::<(Seq<char>, Seq<Seq<char>>)>::empty());
    }
    while i < roles.len()
        invariant
            rv == roles@.map_values(|p: (String, Vec<String>)| (p.0@, p.1.deep_view())),
            rv.len() == roles@.len(),
            i <= roles@.len(),
            out.deep_view() == spec_web_hosts(rv.take(i as int)),
        decreases roles@.len() - i,
    {
        proof {
            reveal_strlit("web");
            assert(rv.take(i + 1 as int).drop_last() =~= rv.take(i as int));
            assert(rv.take(i + 1 as int).last() == rv[i as int]);
            assert(rv[i as int] == (roles@[i as int].0@, roles@[i as int].1.deep_view()));
        }
        if str_eq(roles[i].0.as_str(), "web") {
            push_all(&mut out, &roles[i].1);
        } else {
            proof {
                assert(out.deep_view() + Seq::<Seq<char>>::empty() =~= out.deep_view());
            }
        }
        i = i + 1;
    }
    let mut j: usize = 0;
    proof {
        assert(rv.take(rv.len() as int) =~= rv);
        assert(out.deep_view() + spec_nonweb_hosts(rv.take(0)) =~= out.deep_view());
    }
    let ghost webpart = out.deep_view();
    while j < roles.len()
        invariant
            rv == roles@.map_values(|p: (String, Vec<String>)| (p.0@, p.1.deep_view())),
            rv.len() == roles@.len(),
            j <= roles@.len(),
            webpart == spec_web_hosts(rv),
            out.deep_view() == webpart + spec_nonweb_hosts(rv.take(j as int)),
        decreases roles@.len() - j,
    {
        proof {
            reveal_strlit("web");
            assert(rv.take(j + 1 as int).drop_last() =~= rv.take(j as int));
            assert(rv.take(j + 1 as int).last() == rv[j as int]);
            assert(rv[j as int] == (roles@[j as int].0@, roles@[j as int].1.deep_view()));
        }
        if !str_eq(roles[j].0.as_str(), "web") {
            let ghost before = out.deep_view();
            push_all(&mut out, &roles[j].1);
            proof {
                assert(before + roles@[j as int].1.deep_view() =~= webpart + spec_nonweb_hosts(
                    rv.take(j + 1 as int),
                ));
            }
        } else {
            proof {
                assert(webpart + spec_nonweb_hosts(rv.take(j as int)) + Seq::<Seq<char>>::empty()
                    =~= webpart + spec_nonweb_hosts(rv.take(j as int)));
            }
        }
        j = j + 1;
    }
    proof {
        assert(rv.take(rv.len() as int) =~= rv);
    }
    out
}

fn contains_string(haystack: &Vec<String>, needle: &String) -> (r: bool)
    ensures
        r == haystack.deep_view().contains(needle@),
{
    let mut i: usize = 0;
    while i < haystack.len()
        invariant
            i <= haystack@.len(),
            haystack.deep_view().len() == haystack@.len(),
            forall|j: int| 0 <= j < i ==> haystack.deep_view()[j] != needle@,
        decreases haystack@.len() - i,
    {
        proof {
            assert(haystack.deep_view()[i as int] == haystack@[i as int]@);
        }
        if haystack[i] == *needle {
            proof {
                assert(haystack.deep_view()[i as int] == needle@);
            }
            return true;
        }
        i = i + 1;
    }
    proof {
        if haystack.deep_view().contains(needle@) {
            let k = choose|k: int|
                0 <= k < haystack.deep_view().len() && haystack.deep_view()[k] == needle@;
            assert(haystack.deep_view()[k] != needle@);
        }
    }
    false
}

/// Remove duplicates, keeping the first occurrence of each value.
pub fn dedup_servers(servers: Vec<String>) -> (r: Vec<String>)
    ensures
        r.deep_view() == spec_dedup(servers.deep_view()),
{
    let ghost sv = servers.deep_view();
    let mut out: Vec<String> = Vec::new();
    let mut i: usize = 0;
    proof {
        assert(out.deep_view() =~= Seq::<Seq<char>>::empty());
        assert(sv.take(0) =~= Seq::<Seq<char>>::empty());
        assert(spec_dedup(sv.take(0)) =~= Seq::<Seq<char>>::empty());
    }
    while i < servers.len()
        invariant
            sv == servers.deep_view(),
            sv.len() == servers@.len(),
            i <= servers@.len(),
            out.deep_view() == spec_dedup(sv.take(i as int)),
            forall|v: Seq<char>|
                #[trigger] out.deep_view().contains(v) <==> sv.take(i as int).contains(v),
        decreases servers@.len() - i,
    {
        proof {
            assert(sv.take(i + 1 as int).drop_last() =~= sv.take(i as int));
            assert(sv.take(i + 1 as int).last() == sv[i as int]);
            assert(sv[i as int] == servers@[i as int]@);
        }
        let ghost before = out.deep_view();
        if !contains_string(&out, &servers[i]) {
            out.push(servers[i].clone());
            proof {
                assert(out.deep_view() =~= before.push(sv[i as int]));
                assert(!sv.take(i as int).contains(sv[i as int]));
                assert forall|v: Seq<char>| #[trigger]
                    out.deep_view().contains(v) <==> sv.take(i + 1 as int).contains(v) by {
                    if out.deep_view().contains(v) {
                        let k = choose|k: int|
                            0 <= k < out.deep_view().len() && out.deep_view()[k] == v;
                        if k < before.len() {
                            assert(before.contains(v));
                            let m = choose|m: int|
                                0 <= m < sv.take(i as int).len() && #[trigger] sv.take(
                                    i as int,
                                )[m] == v;
                            assert(sv.take(i + 1 as int)[m] == v);
                        } else {
                            assert(v == sv[i as int]);
                            assert(sv.take(i + 1 as int)[i as int] == v);
                        }
                    }
                    if sv.take(i + 1 as int).contains(v) {
                        let k = choose|k: int|
                            0 <= k < sv.take(i + 1 as int).len() && #[trigger] sv.take(
                                i + 1 as int,
                            )[k] == v;
                        if k < i {
                            assert(sv.take(i as int)[k] == v);
                            assert(sv.take(i as int).contains(v));
                            assert(before.contains(v));
                            let m = choose|m: int| 0 <= m < before.len() && before[m] == v;
                            assert(out.deep_view()[m] == v);
                        } else {
                            assert(v == sv[i as int]);
                            assert(out.deep_view()[before.len() as int] == v);
                        }
                    }
                }
            }
        } else {
            proof {
                assert(sv.take(i as int).contains(sv[i as int]));
                assert forall|v: Seq<char>| #[trigger]
                    out.deep_view().contains(v) <==> sv.take(i + 1 as int).contains(v) by {
                    if sv.take(i + 1 as int).contains(v) {
                        let k = choose|k: int|
                            0 <= k < sv.take(i + 1 as int).len() && #[trigger] sv.take(
                                i + 1 as int,
                            )[k] == v;
                        if k < i {
                            assert(sv.take(i as int)[k] == v);
                            assert(sv.take(i as int).contains(v));
                        } else {
                            assert(v == sv[i as int]);
                        }
                    }
                    if out.deep_view().contains(v) {
                        let m = choose|m: int|
                            0 <= m < sv.take(i as int).len() && #[trigger] sv.take(i as int)[m]
                                == v;
                        assert(sv.take(i + 1 as int)[m] == v);
                    }
                }
            }
        }
        i = i + 1;
    }
    proof {
        assert(sv.take(sv.len() as int) =~= sv);
    }
    out
}

// --- validation -------------------------------------------------------------

/// Why a deploy document was rejected.
#[derive(Debug, Clone, PartialEq, Eq, Structural)]
pub enum DeployConfigError {
    /// The document names no service.
    MissingService,
    /// The document has no `servers` section.
    MissingServers,
    /// A `servers` section is present but lists no host.
    NoServers,
}

impl DeployConfigError {
    /// Human-readable description.
    pub fn message(&self) -> (r: String)
        ensures
            self is MissingService ==> r@ == "Missing 'service' in Kamal config"@,
            self is MissingServers ==> r@ == "Missing 'servers' in Kamal config"@,
            self is NoServers ==> r@ == "No servers found in Kamal config"@,
    {
        match self {
            DeployConfigError::MissingService => "Missing 'service' in Kamal config".to_owned(),
            DeployConfigError::MissingServers => "Missing 'servers' in Kamal config".to_owned(),
            DeployConfigError::NoServers => "No servers found in Kamal config".to_owned(),
        }
    }
}

/// The validated deploy configuration: which service to search, on which
/// servers, as which user.
#[derive(Debug, Clone)]
pub struct KamalConfig {
    pub service: String,
    pub servers: Vec<String>,
    pub ssh_user: String,
    /// Destination name taken from a `deploy.{destination}.yml` filename.
    pub destination: Option<String>,
}

impl KamalConfig {
    /// Validate a raw configuration: the service is required, a `servers`
    /// section is required, role lists are flattened `web` first, duplicate
    /// hosts collapse to their first occurrence, the SSH user defaults to
    /// `root`, and an empty server list is an error.
    pub fn from_yaml(raw: RawDeployConfig, destination: Option<String>) -> (r: Result<
        KamalConfig,
        DeployConfigError,
    >)
        ensures
            match r {
                Ok(c) => {
                    &&& raw@.service matches Some(sv) && c.service@ == sv
                    &&& raw@.has_servers
                    &&& c.servers.deep_view() == spec_final_servers(raw@)
                    &&& c.servers.deep_view().len() > 0
                    &&& c.ssh_user@ == (match raw@.ssh_user {
                        Some(u) => u,
                        None => "root"@,
                    })
                    &&& c.destination.deep_view() == destination.deep_view()
                },
                Err(e) => match e {
                    DeployConfigError::MissingService => raw@.service is None,
                    DeployConfigError::MissingServers => raw@.service is Some && !raw@.has_servers,
                    DeployConfigError::NoServers => raw@.service is Some && raw@.has_servers
                        && spec_final_servers(raw@).len() == 0,
                },
            },
    {
        let RawDeployConfig {
            service,
            ssh_user,
            simple_servers,
            role_servers,
            has_servers_section,
        } = raw;
        let service = match service {
            Some(s) => s,
            None => {
                return Err(DeployConfigError::MissingService);
            },
        };
        if !has_servers_section {
            return Err(DeployConfigError::MissingServers);
        }
        let chosen: Vec<String> = if role_servers.len() > 0 {
            flatten_roles(&role_servers)
        } else {
            simple_servers
        };
        let servers = dedup_servers(chosen);
        if servers.is_empty() {
            return Err(DeployConfigError::NoServers);
        }
        let ssh_user = match ssh_user {
            Some(u) => u,
            None => "root".to_owned(),
        };
        Ok(KamalConfig { service, servers, ssh_user, destination })
    }

    /// Parse a deploy document and validate it.
    pub fn parse(yaml: &str) -> (r: Result<KamalConfig, DeployConfigError>)
        ensures
            match r {
                Ok(c) => {
                    &&& spec_raw_config(yaml@).service matches Some(sv) && c.service@ == sv
                    &&& c.servers.deep_view() == spec_final_servers(spec_raw_config(yaml@))
                    &&& c.servers.deep_view().len() > 0
                    &&& c.ssh_user@ == (match spec_raw_config(yaml@).ssh_user {
                        Some(u) => u,
                        None => "root"@,
                    })
                    &&& c.destination is None
                },
                Err(e) => match e {
                    DeployConfigError::MissingService => spec_raw_config(yaml@).service is None,
                    DeployConfigError::MissingServers => spec_raw_config(yaml@).service is Some
                        && !spec_raw_config(yaml@).has_servers,
                    DeployConfigError::NoServers => spec_raw_config(yaml@).service is Some
                        && spec_raw_config(yaml@).has_servers && spec_final_servers(
                        spec_raw_config(yaml@),
                    ).len() == 0,
                },
            },
    {
        let raw = parse_deploy_text(yaml);
        Self::from_yaml(raw, None)
    }

    /// The container name pattern the runtime is asked to match: containers
    /// are named `{service}-{role}-{hash}`.
    pub fn container_pattern(&self) -> (r: String)
        ensures
            r@ == self.service@ + "*"@,
    {
        let mut s = self.service.clone();
        s.append("*");
        s
    }
}

/// Merge a base document's raw configuration under an environment
/// document's: the environment wins field by field, and its `servers`
/// section, when present, replaces the base's entirely.
pub fn merge_raw_configs(env: RawDeployConfig, base: RawDeployConfig) -> (r: RawDeployConfig)
    ensures
        r@.service == (if env@.service is Some {
            env@.service
        } else {
            base@.service
        }),
        r@.ssh_user == (if env@.ssh_user is Some {
            env@.ssh_user
        } else {
            base@.ssh_user
        }),
        r@.has_servers == (env@.has_servers || base@.has_servers),
        env@.has_servers ==> r@.simple == env@.simple && r@.roles == env@.roles,
        !env@.has_servers ==> r@.simple == base@.simple && r@.roles == base@.roles,
{
    let service = match env.service {
        Some(s) => Some(s),
        None => base.service,
    };
    let ssh_user = match env.ssh_user {
        Some(u) => Some(u),
        None => base.ssh_user,
    };
    if env.has_servers_section {
        RawDeployConfig {
            service,
            ssh_user,
            simple_servers: env.simple_servers,
            role_servers: env.role_servers,
            has_servers_section: true,
        }
    } else {
        RawDeployConfig {
            service,
            ssh_user,
            simple_servers: base.simple_servers,
            role_servers: base.role_servers,
            has_servers_section: base.has_servers_section,
        }
    }
}

/// `s` begins with `p`.
pub open spec fn spec_starts_with(s: Seq<char>, p: Seq<char>) -> bool {
    s.len() >= p.len() && s.take(p.len() as int) == p
}

/// `s` ends with `p`.
pub open spec fn spec_ends_with(s: Seq<char>, p: Seq<char>) -> bool {
    s.len() >= p.len() && s.skip(s.len() - p.len()) == p
}

fn starts_with_str(s: &Vec<char>, p: &str) -> (r: bool)
    ensures
        r == spec_starts_with(s@, p@),
{
    let pv = chars_of(p);
    if pv.len() > s.len() {
        return false;
    }
    let mut i: usize = 0;
    while i < pv.len()
        invariant
            pv@ == p@,
            pv@.len() <= s@.len(),
            i <= pv@.len(),
            forall|j: int| 0 <= j < i ==> s@[j] == pv@[j],
        decreases pv@.len() - i,
    {
        if s[i] != pv[i] {
            proof {
                assert(s@.take(pv@.len() as int)[i as int] != pv@[i as int]);
            }
            return false;
        }
        i = i + 1;
    }
    proof {
        assert(s@.take(pv@.len() as int) =~= pv@);
    }
    true
}

fn ends_with_str(s: &Vec<char>, p: &str) -> (r: bool)
    ensures
        r == spec_ends_with(s@, p@),
{
    let pv = chars_of(p);
    if pv.len() > s.len() {
        return false;
    }
    let n = s.len();
    let off = n - pv.len();
    let mut i: usize = 0;
    while i < pv.len()
        invariant
            pv@ == p@,
            pv@.len() <= s@.len(),
            n == s@.len(),
            off == s@.len() - pv@.len(),
            i <= pv@.len(),
            forall|j: int| 0 <= j < i ==> s@[off + j] == pv@[j],
        decreases pv@.len() - i,
    {
        if s[off + i] != pv[i] {
            proof {
                assert(s@.skip(off as int)[i as int] != pv@[i as int]);
            }
            return false;
        }
        i = i + 1;
    }
    proof {
        assert(s@.skip(off as int) =~= pv@);
    }
    true
}

/// The destination name a deploy filename carries: `deploy.{name}.yml`
/// yields `name`; the plain `deploy.yml` (and anything else) yields none.
pub fn deploy_destination(filename: &str) -> (r: Option<String>)
    ensures
        match r {
            Some(d) => {
                &&& filename@ != "deploy.yml"@
                &&& spec_starts_with(filename@, "deploy."@)
                &&& spec_ends_with(filename@, ".yml"@)
                &&& filename@.len() >= 11
                &&& d@ == filename@.subrange(7, filename@.len() - 4)
            },
            None => {
                filename@ == "deploy.yml"@ || !spec_starts_with(filename@, "deploy."@)
                    || !spec_ends_with(filename@, ".yml"@) || filename@.len() < 11
            },
        },
{
    let cs = chars_of(filename);
    proof {
        reveal_strlit("deploy.");
        reveal_strlit(".yml");
    }
    if str_eq(filename, "deploy.yml") {
        return None;
    }
    if !starts_with_str(&cs, "deploy.") {
        return None;
    }
    if !ends_with_str(&cs, ".yml") {
        return None;
    }
    if cs.len() < 11 {
        return None;
    }
    let mid = copy_range(&cs, 7, cs.len() - 4);
    Some(string_from_chars(mid.as_slice()))
}


} // verus!
