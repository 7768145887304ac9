use rust_crawler::roboreader::RoboReader;
use rust_crawler::text::{lines, tokens, trim};

const ALPHABET: [&str; 24] = [
    " ", " ", "\t", "\n", "\n", "\r", "\r\n", ":", ":", "#", "a", "b", "*", "/", "User-agent",
    "Allow", "Disallow", "Sitemap", "\u{a0}", "\u{2003}", "é", "\u{85}", "x y", "Bot",
];

struct Generator(u64);

impl Generator {
    fn next(&mut self, bound: usize) -> usize {
        self.0 = self.0.wrapping_mul(6364136223846793005).wrapping_add(1442695040888963407);
        ((self.0 >> 33) as usize) % bound
    }

    fn text(&mut self) -> String {
        let mut out = String::new();
        for _ in 0..self.next(30) {
            out.push_str(ALPHABET[self.next(ALPHABET.len())]);
        }
        out
    }
}

fn chars(s: &str) -> Vec<char> {
    s.chars().collect()
}

fn texts(v: &Vec<Vec<char>>) -> Vec<String> {
    v.iter().map(|t| t.iter().collect()).collect()
}

type Group = (Vec<String>, Vec<(String, bool)>);

fn groups_with_std(body: &str) -> Vec<Group> {
    let mut closed: Vec<Group> = Vec::new();
    let mut current: Group = (Vec::new(), Vec::new());
    for line in body.lines() {
        if line.starts_with("#") {
            continue;
        } else if line.is_empty() {
            closed.push(current);
            current = (Vec::new(), Vec::new());
            continue;
        }
        let parts: Vec<&str> = line.trim().splitn(2, ":").collect();
        if parts.len() < 2 {
            continue;
        }
        if parts[0].trim() == "User-agent" {
            current.0.push(parts[1].trim().to_string());
        } else if parts[0].trim() == "Allow" || parts[0].trim() == "Disallow" {
            current.1.push((parts[1].trim().to_string(), parts[0].trim() == "Allow"));
        }
    }
    if !current.0.is_empty() || !current.1.is_empty() {
        closed.push(current);
    }
    closed
}

fn sitemap_with_std(body: &str) -> String {
    for line in body.lines() {
        let parts: Vec<&str> = line.splitn(2, ":").collect();
        if parts.len() == 2 && parts[0].trim() == "Sitemap" {
            return parts[1].to_string();
        }
    }
    String::new()
}

#[test]
fn trim_lines_and_tokens_agree_with_the_standard_library_on_many_texts() {
    let mut generator = Generator(1);
    for _ in 0..3000 {
        let sample = generator.text();
        let given = chars(&sample);
        assert_eq!(trim(&given).iter().collect::<String>(), sample.trim(), "{:?}", sample);
        let expected: Vec<String> = sample.lines().map(String::from).collect();
        assert_eq!(texts(&lines(&given)), expected, "{:?}", sample);
        let expected: Vec<String> = sample.split_whitespace().map(String::from).collect();
        assert_eq!(texts(&tokens(&given)), expected, "{:?}", sample);
    }
}

#[test]
fn categorize_rules_agrees_with_a_reading_by_the_standard_library() {
    let mut generator = Generator(2);
    for _ in 0..3000 {
        let body = generator.text();
        let found: Vec<Group> = RoboReader::categorize_rules(&body)
            .into_iter()
            .map(|g| (g.rules_agents, g.rules))
            .collect();
        assert_eq!(found, groups_with_std(&body), "{:?}", body);
    }
}

#[test]
fn get_sitemap_agrees_with_a_reading_by_the_standard_library() {
    let mut generator = Generator(3);
    for _ in 0..3000 {
        let body = generator.text();
        assert_eq!(RoboReader::get_sitemap(&body), sitemap_with_std(&body), "{:?}", body);
    }
}
