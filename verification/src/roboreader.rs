//! The robots policy: the rule groups of a robots file and the rule set that
//! applies to one crawling agent.

use crate::error::CrawlError;
use crate::markup::strings;
use crate::text::{
    chars_of, lines, lines_of, same_text, split_at_first, split_once, starts_with, string_of,
    texts, trim, trimmed,
};
use crate::weburl::{join_url, url_join, url_parse};
use vstd::hash_map::StringHashMap;
use vstd::prelude::*;

verus! {

/// One group of a robots file: the agents it names and its rules, both in the
/// order of their lines. A rule is a pattern and whether it allows.
pub struct RoboRules {
    pub rules_agents: Vec<String>,
    pub rules: Vec<(String, bool)>,
}

/// The mathematical form of [`RoboRules`].
pub struct RuleGroup {
    pub agents: Seq<Seq<char>>,
    pub rules: Seq<(Seq<char>, bool)>,
}

/// The rules that a vector of rules holds, each pattern as its text.
pub open spec fn rule_texts(rules: Seq<(String, bool)>) -> Seq<(Seq<char>, bool)> {
    rules.map_values(|rule: (String, bool)| (rule.0@, rule.1))
}

impl View for RoboRules {
    type V = RuleGroup;

    open spec fn view(&self) -> RuleGroup {
        RuleGroup { agents: strings(self.rules_agents@), rules: rule_texts(self.rules@) }
    }
}

/// The groups that a vector of groups holds, in order.
pub open spec fn groups(v: Seq<RoboRules>) -> Seq<RuleGroup> {
    v.map_values(|group: RoboRules| group@)
}

/// The mapping that a group's rules amount to: of two rules with one pattern
/// the later one counts.
pub open spec fn rule_map(rules: Seq<(Seq<char>, bool)>) -> Map<Seq<char>, bool>
    decreases rules.len(),
{
    if rules.len() == 0 {
        Map::empty()
    } else {
        rule_map(rules.drop_last()).insert(rules.last().0, rules.last().1)
    }
}

/// What one line of a robots file says.
pub enum RobotsLine {
    /// A line that begins with `#`.
    Comment,
    /// A line without any character: it closes the group.
    Blank,
    /// `User-agent:` and the agent's name.
    Agent(String),
    /// `Allow:` or `Disallow:`, the pattern and whether it allows.
    Rule(String, bool),
    /// Any other line; it is passed over.
    Other,
}

/// The mathematical form of [`RobotsLine`].
pub enum RobotsLineView {
    Comment,
    Blank,
    Agent(Seq<char>),
    Rule(Seq<char>, bool),
    Other,
}

impl View for RobotsLine {
    type V = RobotsLineView;

    open spec fn view(&self) -> RobotsLineView {
        match *self {
            RobotsLine::Comment => RobotsLineView::Comment,
            RobotsLine::Blank => RobotsLineView::Blank,
            RobotsLine::Agent(name) => RobotsLineView::Agent(name@),
            RobotsLine::Rule(pattern, allow) => RobotsLineView::Rule(pattern@, allow),
            RobotsLine::Other => RobotsLineView::Other,
        }
    }
}

/// What a line says that is neither a comment nor blank: the trimmed line is
/// split at its first colon, and the trimmed key decides. A line without a
/// colon says nothing.
pub open spec fn directive_of(line: Seq<char>) -> RobotsLineView {
    match split_at_first(trimmed(line), ':') {
        None => RobotsLineView::Other,
        Some((key, value)) => {
            if trimmed(key) == "User-agent"@ {
                RobotsLineView::Agent(trimmed(value))
            } else if trimmed(key) == "Allow"@ {
                RobotsLineView::Rule(trimmed(value), true)
            } else if trimmed(key) == "Disallow"@ {
                RobotsLineView::Rule(trimmed(value), false)
            } else {
                RobotsLineView::Other
            }
        },
    }
}

/// What a line of a robots file says.
pub open spec fn line_meaning(line: Seq<char>) -> RobotsLineView {
    if line.len() > 0 && line[0] == '#' {
        RobotsLineView::Comment
    } else if line.len() == 0 {
        RobotsLineView::Blank
    } else {
        directive_of(line)
    }
}

/// The groups read so far: those that a blank line has closed, and the one
/// that is still open.
pub struct Grouping {
    pub closed: Seq<RuleGroup>,
    pub open: RuleGroup,
}

/// A group without agents and rules.
pub open spec fn empty_group() -> RuleGroup {
    RuleGroup { agents: Seq::empty(), rules: Seq::empty() }
}

/// The grouping after one more line.
pub open spec fn take_line(g: Grouping, line: RobotsLineView) -> Grouping {
    match line {
        RobotsLineView::Blank => Grouping { closed: g.closed.push(g.open), open: empty_group() },
        RobotsLineView::Agent(name) => Grouping {
            closed: g.closed,
            open: RuleGroup { agents: g.open.agents.push(name), rules: g.open.rules },
        },
        RobotsLineView::Rule(pattern, allow) => Grouping {
            closed: g.closed,
            open: RuleGroup { agents: g.open.agents, rules: g.open.rules.push((pattern, allow)) },
        },
        _ => g,
    }
}

/// The grouping after the given lines.
pub open spec fn grouping_of(lines: Seq<Seq<char>>) -> Grouping
    decreases lines.len(),
{
    if lines.len() == 0 {
        Grouping { closed: Seq::empty(), open: empty_group() }
    } else {
        take_line(grouping_of(lines.drop_last()), line_meaning(lines.last()))
    }
}

/// The rule groups of a robots file. Every blank line closes a group, also one
/// without agents and rules; the end of the file closes the last group where
/// it holds an agent or a rule.
pub open spec fn groups_of(body: Seq<char>) -> Seq<RuleGroup> {
    let g = grouping_of(lines_of(body));
    if g.open == empty_group() {
        g.closed
    } else {
        g.closed.push(g.open)
    }
}

/// How well the agent of a group fits the requested agent.
#[derive(Clone, Copy, Debug, PartialEq, Eq, Structural)]
pub enum MatchKind {
    /// No group fits.
    Nothing,
    /// The group names the wildcard `*`.
    Wildcard,
    /// The group names a prefix of the requested agent.
    Prefix,
    /// The group names the requested agent itself.
    Exact,
}

/// The best candidate so far: how it fits, the index of its group, and for a
/// prefix its length (zero otherwise).
pub struct Choice {
    pub kind: MatchKind,
    pub group: int,
    pub length: nat,
}

/// No candidate.
pub open spec fn no_choice() -> Choice {
    Choice { kind: MatchKind::Nothing, group: 0, length: 0 }
}

/// The wildcard agent.
pub open spec fn wildcard() -> Seq<char> {
    seq!['*']
}

/// The best candidate after the agent `agent` of the group `group` has been
/// looked at.
///
/// - The requested agent itself always wins.
/// - A prefix of the requested agent wins over anything but an exact match,
///   where it is longer than the prefix chosen so far.
/// - The wildcard wins only where nothing or a wildcard was chosen so far.
pub open spec fn consider(best: Choice, agent: Seq<char>, group: int, user: Seq<char>) -> Choice {
    if agent == user {
        Choice { kind: MatchKind::Exact, group, length: 0 }
    } else if best.kind != MatchKind::Exact && agent.is_prefix_of(user) && agent.len()
        > best.length {
        Choice { kind: MatchKind::Prefix, group, length: agent.len() }
    } else if (best.kind == MatchKind::Nothing || best.kind == MatchKind::Wildcard) && agent
        == wildcard() {
        Choice { kind: MatchKind::Wildcard, group, length: 0 }
    } else {
        best
    }
}

/// The best candidate after the given agents of one group, in order.
pub open spec fn scan_agents(
    best: Choice,
    agents: Seq<Seq<char>>,
    group: int,
    user: Seq<char>,
) -> Choice
    decreases agents.len(),
{
    if agents.len() == 0 {
        best
    } else {
        consider(scan_agents(best, agents.drop_last(), group, user), agents.last(), group, user)
    }
}

/// The best candidate after the given groups, in order.
pub open spec fn scan_groups(all: Seq<RuleGroup>, user: Seq<char>) -> Choice
    decreases all.len(),
{
    if all.len() == 0 {
        no_choice()
    } else {
        scan_agents(scan_groups(all.drop_last(), user), all.last().agents, all.len() - 1, user)
    }
}

/// The rule set that applies to the agent `user`: the rules of the chosen
/// group, or no rule where no group fits.
pub open spec fn effective_rules(all: Seq<RuleGroup>, user: Seq<char>) -> Map<Seq<char>, bool> {
    let best = scan_groups(all, user);
    if best.kind == MatchKind::Nothing {
        Map::empty()
    } else {
        rule_map(all[best.group].rules)
    }
}

/// The value of the first line whose key is `Sitemap`: what follows the
/// line's first colon, as it stands. The empty text where there is no such
/// line.
pub open spec fn sitemap_in(lines: Seq<Seq<char>>) -> Seq<char>
    decreases lines.len(),
{
    if lines.len() == 0 {
        Seq::empty()
    } else {
        match split_at_first(lines[0], ':') {
            Some((key, value)) => if trimmed(key) == "Sitemap"@ {
                value
            } else {
                sitemap_in(lines.drop_first())
            },
            None => sitemap_in(lines.drop_first()),
        }
    }
}

/// The sitemap that a robots file names.
pub open spec fn sitemap_of(body: Seq<char>) -> Seq<char> {
    sitemap_in(lines_of(body))
}

/// Reads one line of a robots file.
pub fn read_line(line: &Vec<char>) -> (out: RobotsLine)
    ensures
        out@ == line_meaning(line@),
{
    if line.len() > 0 && line[0] == '#' {
        return RobotsLine::Comment;
    }
    if line.len() == 0 {
        return RobotsLine::Blank;
    }
    match split_once(&trim(line), ':') {
        None => RobotsLine::Other,
        Some((key, value)) => {
            let key = trim(&key);
            if same_text(&key, &chars_of("User-agent")) {
                RobotsLine::Agent(string_of(&trim(&value)))
            } else if same_text(&key, &chars_of("Allow")) {
                RobotsLine::Rule(string_of(&trim(&value)), true)
            } else if same_text(&key, &chars_of("Disallow")) {
                RobotsLine::Rule(string_of(&trim(&value)), false)
            } else {
                RobotsLine::Other
            }
        },
    }
}

/// The robots policy of one site for one agent.
pub struct RoboReader {
    /// The agent that the rules were chosen for.
    pub user: String,
    /// The rules that apply to the agent: pattern to allowed.
    pub rules: StringHashMap<bool>,
    /// The sitemap that the robots file names; kept, not used.
    pub sitemap: String,
}

impl RoboReader {
    /// Where the robots file of the site of `url` lies: `robots.txt`,
    /// resolved against `url`.
    pub fn robots_url(url: &str) -> (out: Result<String, CrawlError>)
        ensures
            match out {
                Ok(location) => url_join(url@, "robots.txt"@) == Some(location@) && url_parse(
                    url@,
                ) is Absolute,
                Err(e) => e == CrawlError::ParseError && url_join(url@, "robots.txt"@) is None,
            },
    {
        match join_url(url, "robots.txt") {
            Some(location) => Ok(location),
            None => Err(CrawlError::ParseError),
        }
    }

    /// Reads a robots file into its rule groups.
    pub fn categorize_rules(body: &str) -> (out: Vec<RoboRules>)
        ensures
            groups(out@) == groups_of(body@),
    {
        let all = lines(&chars_of(body));
        let mut closed: Vec<RoboRules> = Vec::new();
        let mut current = RoboRules { rules_agents: Vec::new(), rules: Vec::new() };
        let mut i: usize = 0;
        assert(texts(all@).take(0) =~= Seq::<Seq<char>>::empty());
        assert(groups(closed@) =~= Seq::<RuleGroup>::empty());
        assert(current@.agents =~= Seq::<Seq<char>>::empty());
        assert(current@.rules =~= Seq::<(Seq<char>, bool)>::empty());
        while i < all.len()
            invariant
                i <= all.len(),
                grouping_of(texts(all@).take(i as int)) == (Grouping {
                    closed: groups(closed@),
                    open: current@,
                }),
            decreases all.len() - i,
        {
            let ghost before = Grouping { closed: groups(closed@), open: current@ };
            proof {
                let upto = texts(all@).take(i + 1);
                assert(upto.drop_last() == texts(all@).take(i as int));
                assert(upto.last() == all@[i as int]@);
            }
            match read_line(&all[i]) {
                RobotsLine::Blank => {
                    closed.push(current);
                    current = RoboRules { rules_agents: Vec::new(), rules: Vec::new() };
                    assert(groups(closed@) =~= before.closed.push(before.open));
                    assert(current@.agents =~= Seq::<Seq<char>>::empty());
                    assert(current@.rules =~= Seq::<(Seq<char>, bool)>::empty());
                },
                RobotsLine::Agent(name) => {
                    current.rules_agents.push(name);
                    assert(current@.agents =~= before.open.agents.push(name@));
                },
                RobotsLine::Rule(pattern, allow) => {
                    current.rules.push((pattern, allow));
                    assert(current@.rules =~= before.open.rules.push((pattern@, allow)));
                },
                _ => {},
            }
            i += 1;
        }
        assert(texts(all@).take(i as int) == texts(all@));
        if current.rules_agents.len() > 0 || current.rules.len() > 0 {
            assert(current@ != empty_group()) by {
                if current.rules_agents.len() > 0 {
                    assert(current@.agents.len() > 0);
                } else {
                    assert(current@.rules.len() > 0);
                }
            }
            let ghost before = groups(closed@);
            closed.push(current);
            assert(groups(closed@) =~= before.push(current@));
        } else {
            assert(current@.agents =~= Seq::<Seq<char>>::empty());
            assert(current@.rules =~= Seq::<(Seq<char>, bool)>::empty());
        }
        closed
    }

    /// Chooses the rule set that applies to the agent `user`. It never fails.
    pub fn determine_ruleset(robo_rules: &[RoboRules], user: &str) -> (out: Result<
        StringHashMap<bool>,
        CrawlError,
    >)
        ensures
            out is Ok,
            out->Ok_0@ == effective_rules(groups(robo_rules@), user@),
    {
        let wanted = chars_of(user);
        let star = chars_of("*");
        proof {
            reveal_strlit("*");
            assert(star@ =~= wildcard());
        }
        let mut kind = MatchKind::Nothing;
        let mut chosen: usize = 0;
        let mut length: usize = 0;
        let mut g: usize = 0;
        assert(groups(robo_rules@).take(0) =~= Seq::<RuleGroup>::empty());
        while g < robo_rules.len()
            invariant
                g <= robo_rules.len(),
                wanted@ == user@,
                star@ == wildcard(),
                scan_groups(groups(robo_rules@).take(g as int), user@) == (Choice {
                    kind,
                    group: chosen as int,
                    length: length as nat,
                }),
                kind != MatchKind::Nothing ==> chosen < g,
            decreases robo_rules.len() - g,
        {
            let agents = &robo_rules[g].rules_agents;
            let ghost start = Choice { kind, group: chosen as int, length: length as nat };
            let ghost names = strings(agents@);
            proof {
                let upto = groups(robo_rules@).take(g + 1);
                assert(upto.drop_last() == groups(robo_rules@).take(g as int));
                assert(upto.last().agents == names);
                assert(names.take(0) =~= Seq::<Seq<char>>::empty());
            }
            let mut a: usize = 0;
            while a < agents.len()
                invariant
                    a <= agents.len(),
                    g < robo_rules.len(),
                    names == strings(agents@),
                    wanted@ == user@,
                    star@ == wildcard(),
                    scan_agents(start, names.take(a as int), g as int, user@) == (Choice {
                        kind,
                        group: chosen as int,
                        length: length as nat,
                    }),
                    kind != MatchKind::Nothing ==> chosen <= g,
                decreases agents.len() - a,
            {
                proof {
                    let upto = names.take(a + 1);
                    assert(upto.drop_last() == names.take(a as int));
                    assert(upto.last() == agents@[a as int]@);
                }
                let agent = chars_of(agents[a].as_str());
                if same_text(&agent, &wanted) {
                    kind = MatchKind::Exact;
                    chosen = g;
                    length = 0;
                } else if kind != MatchKind::Exact && starts_with(&wanted, &agent) && agent.len()
                    > length {
                    kind = MatchKind::Prefix;
                    chosen = g;
                    length = agent.len();
                } else if (kind == MatchKind::Nothing || kind == MatchKind::Wildcard) && same_text(
                    &agent,
                    &star,
                ) {
                    kind = MatchKind::Wildcard;
                    chosen = g;
                    length = 0;
                }
                a += 1;
            }
            assert(names.take(a as int) == names);
            g += 1;
        }
        assert(groups(robo_rules@).take(g as int) == groups(robo_rules@));
        let mut out: StringHashMap<bool> = StringHashMap::new();
        if kind != MatchKind::Nothing {
            let rules = &robo_rules[chosen].rules;
            let ghost all = rule_texts(rules@);
            let mut r: usize = 0;
            assert(all.take(0) =~= Seq::<(Seq<char>, bool)>::empty());
            while r < rules.len()
                invariant
                    r <= rules.len(),
                    all == rule_texts(rules@),
                    out@ == rule_map(all.take(r as int)),
                decreases rules.len() - r,
            {
                proof {
                    let upto = all.take(r + 1);
                    assert(upto.drop_last() == all.take(r as int));
                    assert(upto.last() == (rules@[r as int].0@, rules@[r as int].1));
                }
                out.insert(rules[r].0.clone(), rules[r].1);
                r += 1;
            }
            assert(all.take(r as int) == all);
        }
        Ok(out)
    }

    /// Builds the policy for the agent `user_name` from the robots file of
    /// the site of `url`, which the caller has fetched from
    /// [`RoboReader::robots_url`]; `robots` is nothing where that failed.
    pub fn new(url: &str, user_name: &str, robots: Option<&str>) -> (out: Result<
        RoboReader,
        CrawlError,
    >)
        ensures
            url_join(url@, "robots.txt"@) is None ==> out == Err::<RoboReader, CrawlError>(
                CrawlError::ParseError,
            ),
            url_join(url@, "robots.txt"@) is Some && robots is None ==> out == Err::<
                RoboReader,
                CrawlError,
            >(CrawlError::FetchError),
            url_join(url@, "robots.txt"@) is Some && robots is Some ==> out is Ok && {
                let reader = out->Ok_0;
                let body = robots->Some_0@;
                &&& url_parse(url@) is Absolute
                &&& reader.user@ == user_name@
                &&& reader.rules@ == effective_rules(groups_of(body), user_name@)
                &&& reader.sitemap@ == sitemap_of(body)
            },
    {
        match Self::robots_url(url) {
            Err(e) => Err(e),
            Ok(_) => match robots {
                None => Err(CrawlError::FetchError),
                Some(body) => {
                    let found = Self::categorize_rules(body);
                    match Self::determine_ruleset(found.as_slice(), user_name) {
                        Err(e) => Err(e),
                        Ok(rules) => Ok(
                            RoboReader {
                                user: user_name.to_owned(),
                                rules,
                                sitemap: Self::get_sitemap(body),
                            },
                        ),
                    }
                },
            },
        }
    }

    /// Whether the rules forbid the link `href`: they hold this very text
    /// as a pattern, and the pattern does not allow.
    pub fn disallows(&self, href: &str) -> (out: bool)
        ensures
            out == (self.rules@.contains_key(href@) && !self.rules@[href@]),
    {
        match self.rules.get(href) {
            Some(allow) => !*allow,
            None => false,
        }
    }

    /// Finds the sitemap that a robots file names.
    pub fn get_sitemap(body: &str) -> (out: String)
        ensures
            out@ == sitemap_of(body@),
    {
        let all = lines(&chars_of(body));
        let mut i: usize = 0;
        assert(texts(all@).skip(0) =~= texts(all@));
        while i < all.len()
            invariant
                i <= all.len(),
                sitemap_of(body@) == sitemap_in(texts(all@).skip(i as int)),
            decreases all.len() - i,
        {
            proof {
                let rest = texts(all@).skip(i as int);
                assert(rest[0] == all@[i as int]@);
                assert(rest.drop_first() =~= texts(all@).skip(i + 1));
            }
            match split_once(&all[i], ':') {
                Some((key, value)) => {
                    if same_text(&trim(&key), &chars_of("Sitemap")) {
                        return string_of(&value);
                    }
                },
                None => {},
            }
            i += 1;
        }
        String::new()
    }
}

proof fn lemma_scan_agents_exact(best: Choice, agents: Seq<Seq<char>>, group: int, user: Seq<char>)
    ensures
        agents.contains(user) ==> scan_agents(best, agents, group, user) == (Choice {
            kind: MatchKind::Exact,
            group,
            length: 0,
        }),
        !agents.contains(user) && best.kind == MatchKind::Exact ==> scan_agents(
            best,
            agents,
            group,
            user,
        ) == best,
    decreases agents.len(),
{
    if agents.len() > 0 {
        let front = agents.drop_last();
        lemma_scan_agents_exact(best, front, group, user);
        if agents.last() != user {
            if agents.contains(user) {
                let i = choose|i: int| 0 <= i < agents.len() && agents[i] == user;
                assert(front[i] == user);
            } else {
                assert forall|i: int| 0 <= i < front.len() implies front[i] != user by {
                    assert(agents[i] == front[i]);
                }
            }
        } else {
            assert(agents[agents.len() - 1] == user);
        }
    }
}

/// A group that names the requested agent itself is chosen over every group
/// that does not, whatever prefixes and wildcards those name and however long
/// their agents are; of several such groups the last one is chosen.
pub proof fn lemma_exact_match_wins(all: Seq<RuleGroup>, user: Seq<char>, g: int)
    requires
        0 <= g < all.len(),
        all[g].agents.contains(user),
        forall|h: int| g < h < all.len() ==> !all[h].agents.contains(user),
    ensures
        scan_groups(all, user).kind == MatchKind::Exact,
        scan_groups(all, user).group == g,
        effective_rules(all, user) == rule_map(all[g].rules),
    decreases all.len(),
{
    let front = all.drop_last();
    let before = scan_groups(front, user);
    lemma_scan_agents_exact(before, all.last().agents, all.len() - 1, user);
    if g < all.len() - 1 {
        assert(front[g] == all[g]);
        assert forall|h: int| g < h < front.len() implies !front[h].agents.contains(user) by {
            assert(front[h] == all[h]);
        }
        lemma_exact_match_wins(front, user, g);
    }
}

/// An agent of a group, by the group's index.
pub type Named = (int, Seq<char>);

/// Whether `agent` stands for the requested agent as a prefix: it is not the
/// requested agent itself, it is not empty, and the requested agent begins
/// with it.
pub open spec fn is_partial(agent: Seq<char>, user: Seq<char>) -> bool {
    agent != user && agent.len() > 0 && agent.is_prefix_of(user)
}

/// Whether `best` is the most specific choice among the agents `seen`:
///
/// - an exact match where the requested agent is among them, in the last
///   group that names it;
/// - else a prefix where a prefix is among them: the longest, in the first
///   group that names one of that length;
/// - else the wildcard where it is among them, in the last group that names
///   it;
/// - else nothing.
pub open spec fn most_specific(best: Choice, seen: Set<Named>, user: Seq<char>) -> bool {
    &&& best.kind == MatchKind::Exact ==> {
        &&& seen.contains((best.group, user))
        &&& forall|p: Named| #[trigger] seen.contains(p) && p.1 == user ==> p.0 <= best.group
    }
    &&& best.kind != MatchKind::Exact ==> forall|p: Named| #[trigger] seen.contains(p) ==> p.1 != user
    &&& best.kind == MatchKind::Prefix ==> {
        &&& exists|agent: Seq<char>| #[trigger]
            seen.contains((best.group, agent)) && is_partial(agent, user) && agent.len()
                == best.length
        &&& forall|p: Named| #[trigger]
            seen.contains(p) && is_partial(p.1, user) ==> p.1.len() <= best.length && (p.1.len()
                == best.length ==> p.0 >= best.group)
    }
    &&& best.kind != MatchKind::Prefix ==> best.length == 0
    &&& (best.kind == MatchKind::Nothing || best.kind == MatchKind::Wildcard) ==> forall|p: Named| #[trigger]
        seen.contains(p) ==> !is_partial(p.1, user)
    &&& best.kind == MatchKind::Wildcard ==> {
        &&& seen.contains((best.group, wildcard()))
        &&& forall|p: Named| #[trigger]
            seen.contains(p) && p.1 == wildcard() ==> p.0 <= best.group
    }
    &&& best.kind == MatchKind::Nothing ==> forall|p: Named| #[trigger]
        seen.contains(p) ==> p.1 != wildcard()
}

/// The agents of the given groups, each with the index of its group.
pub open spec fn named_in(all: Seq<RuleGroup>) -> Set<Named> {
    Set::new(|p: Named| 0 <= p.0 < all.len() && all[p.0].agents.contains(p.1))
}

proof fn lemma_consider(best: Choice, seen: Set<Named>, agent: Seq<char>, group: int, user: Seq<char>)
    requires
        most_specific(best, seen, user),
        forall|p: Named| #[trigger] seen.contains(p) ==> p.0 <= group,
    ensures
        most_specific(consider(best, agent, group, user), seen.insert((group, agent)), user),
{
    let next = consider(best, agent, group, user);
    let more = seen.insert((group, agent));
    assert(wildcard().len() == 1);
    if agent == user {
    } else if best.kind != MatchKind::Exact && agent.is_prefix_of(user) && agent.len()
        > best.length {
        assert(more.contains((group, agent)) && is_partial(agent, user));
    } else if (best.kind == MatchKind::Nothing || best.kind == MatchKind::Wildcard) && agent
        == wildcard() {
    } else {
        if best.kind == MatchKind::Prefix {
            let shown = choose|shown: Seq<char>| #[trigger]
                seen.contains((best.group, shown)) && is_partial(shown, user) && shown.len()
                    == best.length;
            assert(more.contains((best.group, shown)));
        }
    }
}

proof fn lemma_scan_agents_most_specific(
    best: Choice,
    seen: Set<Named>,
    agents: Seq<Seq<char>>,
    group: int,
    user: Seq<char>,
)
    requires
        most_specific(best, seen, user),
        forall|p: Named| #[trigger] seen.contains(p) ==> p.0 <= group,
    ensures
        most_specific(
            scan_agents(best, agents, group, user),
            seen.union(Set::new(|p: Named| p.0 == group && agents.contains(p.1))),
            user,
        ),
    decreases agents.len(),
{
    let here = Set::new(|p: Named| p.0 == group && agents.contains(p.1));
    if agents.len() == 0 {
        assert(seen.union(here) =~= seen);
    } else {
        let front = agents.drop_last();
        let last = agents.last();
        let before = Set::new(|p: Named| p.0 == group && front.contains(p.1));
        lemma_scan_agents_most_specific(best, seen, front, group, user);
        lemma_consider(
            scan_agents(best, front, group, user),
            seen.union(before),
            last,
            group,
            user,
        );
        assert(seen.union(here) =~= seen.union(before).insert((group, last))) by {
            assert forall|p: Named|
                here.contains(p) <==> (before.contains(p) || p == (group, last)) by {
                if agents.contains(p.1) {
                    let i = choose|i: int| 0 <= i < agents.len() && agents[i] == p.1;
                    if i < front.len() {
                        assert(front[i] == p.1);
                    }
                }
                if front.contains(p.1) {
                    let i = choose|i: int| 0 <= i < front.len() && front[i] == p.1;
                    assert(agents[i] == p.1);
                }
                assert(agents[agents.len() - 1] == last);
            }
        }
    }
}

/// Most specific precedence. The group whose rules apply is chosen by the
/// most specific of the agents that the groups name: the requested agent
/// itself before any prefix of it, a longer prefix before a shorter one, any
/// prefix before the wildcard, and nothing where none of these is named.
pub proof fn lemma_choice_is_most_specific(all: Seq<RuleGroup>, user: Seq<char>)
    ensures
        most_specific(scan_groups(all, user), named_in(all), user),
        scan_groups(all, user).kind != MatchKind::Nothing ==> 0 <= scan_groups(all, user).group
            < all.len(),
    decreases all.len(),
{
    if all.len() == 0 {
    } else {
        let front = all.drop_last();
        let group = all.len() - 1;
        let here = Set::new(|p: Named| p.0 == group && all.last().agents.contains(p.1));
        lemma_choice_is_most_specific(front, user);
        lemma_scan_agents_most_specific(
            scan_groups(front, user),
            named_in(front),
            all.last().agents,
            group,
            user,
        );
        assert(named_in(all) =~= named_in(front).union(here)) by {
            assert forall|p: Named| named_in(all).contains(p) <==> named_in(front).union(
                here,
            ).contains(p) by {
                if 0 <= p.0 < group {
                    assert(front[p.0] == all[p.0]);
                }
            }
        }
        let best = scan_groups(all, user);
        if best.kind == MatchKind::Prefix {
            let shown = choose|shown: Seq<char>| #[trigger]
                named_in(all).contains((best.group, shown)) && is_partial(shown, user)
                    && shown.len() == best.length;
            assert(named_in(all).contains((best.group, shown)));
        }
    }
}

/// Without a group that names the requested agent, a prefix of it or the
/// wildcard, no rule applies: every link is allowed.
pub proof fn lemma_no_match_allows_all(all: Seq<RuleGroup>, user: Seq<char>)
    requires
        forall|g: int, a: int|
            0 <= g < all.len() && 0 <= a < all[g].agents.len() ==> {
                let agent = #[trigger] all[g].agents[a];
                agent != user && !is_partial(agent, user) && agent != wildcard()
            },
    ensures
        effective_rules(all, user) == Map::<Seq<char>, bool>::empty(),
{
    lemma_choice_is_most_specific(all, user);
    let best = scan_groups(all, user);
    if best.kind != MatchKind::Nothing {
        let p: Named = if best.kind == MatchKind::Exact {
            (best.group, user)
        } else if best.kind == MatchKind::Wildcard {
            (best.group, wildcard())
        } else {
            let shown = choose|shown: Seq<char>| #[trigger]
                named_in(all).contains((best.group, shown)) && is_partial(shown, user)
                    && shown.len() == best.length;
            (best.group, shown)
        };
        assert(named_in(all).contains(p));
        let a = choose|a: int| 0 <= a < all[p.0].agents.len() && all[p.0].agents[a] == p.1;
        assert(all[p.0].agents[a] == p.1);
    }
}

} // verus!
