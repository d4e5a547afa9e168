use env_checker::env_file::parse_env_file;
use regex::Regex;

// The grammar of an environment file written down as patterns, to hold
// the scanner against.
fn by_patterns(content: &str) -> Vec<(String, Option<String>, usize)> {
    let comment = Regex::new(r"^\s*#.*$").unwrap();
    let empty = Regex::new(r"^\s*$").unwrap();
    let export = Regex::new(r"^\s*export\s+").unwrap();
    let assignment = Regex::new(r"^([A-Za-z_][A-Za-z0-9_]*)\s*=\s*(.*)$").unwrap();
    let mut out = Vec::new();
    for (number, line) in content.lines().enumerate() {
        let line = line.trim();
        if comment.is_match(line) || empty.is_match(line) {
            continue;
        }
        let line = export.replace(line, "");
        if let Some(found) = assignment.captures(&line) {
            let name = found.get(1).unwrap().as_str().to_string();
            let raw = found.get(2).unwrap().as_str().trim();
            let value = if raw.is_empty() || raw == "''" || raw == "\"\"" {
                None
            } else {
                Some(value_by_std(raw))
            };
            out.push((name, value, number));
        }
    }
    out
}

fn value_by_std(value: &str) -> String {
    let value = value.trim();
    let quoted = value.len() >= 2
        && ((value.starts_with('"') && value.ends_with('"'))
            || (value.starts_with('\'') && value.ends_with('\'')));
    if quoted {
        let inner: Vec<char> = value[1..value.len() - 1].chars().collect();
        let mut result = String::new();
        let mut i = 0;
        while i < inner.len() {
            let escape = if inner[i] == '\\' { inner.get(i + 1).copied() } else { None };
            match escape {
                Some('n') => result.push('\n'),
                Some('t') => result.push('\t'),
                Some('\\') => result.push('\\'),
                _ => {
                    result.push(inner[i]);
                    i += 1;
                    continue;
                }
            }
            i += 2;
        }
        result
    } else if value.starts_with('"') {
        let mut result = String::new();
        let mut escaped = false;
        for c in value[1..].chars() {
            if escaped {
                result.push(match c {
                    'n' => '\n',
                    't' => '\t',
                    other => other,
                });
                escaped = false;
            } else if c == '\\' {
                escaped = true;
            } else {
                result.push(c);
            }
        }
        result
    } else {
        value.to_string()
    }
}

fn compare(content: &str) {
    let ours: Vec<(String, Option<String>, usize)> = parse_env_file(content, "f")
        .into_iter()
        .map(|e| (e.name, e.value, e.line))
        .collect();
    assert_eq!(ours, by_patterns(content), "{:?}", content);
}

#[test]
fn scanner_agrees_with_patterns_on_samples() {
    for content in [
        "",
        "\n",
        "A=1",
        "A=1\n",
        "A=1\r\nB=2\r\n",
        "# c\n\n  A = 1 \nexport B=\"x y\"\nexport\tC='z'\nD=\nE=\"\"\nF=''\n",
        "export=1\nexport =2\nexport  export=3\nexportX=4\n",
        "1A=x\nA-B=x\n=x\nA\nA B=1\n_=1\n__a9=\t q\n",
        "A=\"unclosed\\n\\t\\\\ \\\" \\q\nB='x\\ny'\nC=\"\\\\n\"\n",
        "A=b=c\nA==\nA= =\nA=#\n #A=1\n",
        "A=\"\nB='\nC=\"a\nD=a\"\nE='a\"\n",
        "\u{a0}A\u{2003}=\u{3000}v\u{2028}\n\u{feff}B=1\n",
        "A=\u{e9}\u{10000}\n\u{e9}=1\nA\u{e9}=1\n",
        "A=1\n\n\n\nB=2\n\n",
        "A = 'it''s'\nB = \"say \\\"hi\\\"\"\n",
        "  export   A   =   spaced   value   \n",
        "A=1\u{b}B=2\u{c}\nC=3\r",
    ] {
        compare(content);
    }
}

#[test]
fn scanner_agrees_with_patterns_on_generated_lines() {
    let pieces = ["A", "_b", "1", "=", " ", "\t", "\"", "'", "\\", "n", "#", "export", "\u{a0}", "x y"];
    let mut state: u64 = 0x2545_f491_4f6c_dd1d;
    for _ in 0..3000 {
        let mut content = String::new();
        for _ in 0..3 {
            state ^= state << 13;
            state ^= state >> 7;
            state ^= state << 17;
            let mut s = state;
            let count = (s % 7) as usize;
            s /= 7;
            for _ in 0..count {
                content.push_str(pieces[(s % pieces.len() as u64) as usize]);
                s /= pieces.len() as u64;
            }
            content.push('\n');
        }
        compare(&content);
    }
}
