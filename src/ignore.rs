//! Ignore rules: one per line of an ignore file, matched against directory
//! paths component by component.
use vstd::prelude::*;
use crate::text::{
    components, is_prefix_of, lines_of, path_components, starts_with_components, text_lines,
    views,
};

verus! {

/// The name of the file that declares ignore rules in a directory.
pub const IGNORE_FILE_NAME: &'static str = ".gitignore";

/// The rule that one line of an ignore file declares: the line, rooted at `./`.
pub open spec fn rule_of_line(line: Seq<char>) -> Seq<char> {
    seq!['.', '/'] + line
}

/// The rules of an ignore file's text, one for every line, blank ones included.
pub open spec fn ignore_rules(text: Seq<char>) -> Seq<Seq<char>> {
    lines_of(text).map_values(|line: Seq<char>| rule_of_line(line))
}

/// Whether a directory path falls under a rule: the rule's components begin the
/// path's components.
pub open spec fn matches_rule(path: Seq<char>, rule: Seq<char>) -> bool {
    is_prefix_of(path_components(rule), path_components(path))
}

/// Whether some rule of `rules` matches the directory path.
pub open spec fn excluded_by(path: Seq<char>, rules: Seq<Seq<char>>) -> bool {
    exists|j: int| 0 <= j < rules.len() && matches_rule(path, #[trigger] rules[j])
}

/// The ordered rules gathered from the ignore files of a tree.
pub struct IgnoreIndex {
    pub rules: Vec<String>,
}

impl View for IgnoreIndex {
    type V = Seq<Seq<char>>;

    open spec fn view(&self) -> Seq<Seq<char>> {
        views(self.rules@)
    }
}

/// The rule of one line.
pub fn rule_from_line(line: &String) -> (r: String)
    ensures
        r@ == rule_of_line(line@),
{
    proof {
        reveal_strlit("./");
        assert("./"@ =~= seq!['.', '/']);
    }
    String::from_str("./").concat(line.as_str())
}

impl IgnoreIndex {
    /// An index with no rules.
    pub fn new() -> (r: IgnoreIndex)
        ensures
            r@ == Seq::<Seq<char>>::empty(),
    {
        let r = IgnoreIndex { rules: Vec::new() };
        assert(r@ =~= Seq::<Seq<char>>::empty());
        r
    }

    /// Appends the rules of an ignore file's text, in line order.
    pub fn add_ignore_text(&mut self, text: &str)
        ensures
            final(self)@ == old(self)@ + ignore_rules(text@),
    {
        let lines = text_lines(text);
        let ghost start = self@;
        let mut j: usize = 0;
        while j < lines.len()
            invariant
                views(lines@) == lines_of(text@),
                j <= lines@.len(),
                self@ == start + ignore_rules(text@).take(j as int),
            decreases lines@.len() - j,
        {
            let rule = rule_from_line(&lines[j]);
            let ghost before = self@;
            self.rules.push(rule);
            j = j + 1;
            proof {
                assert(self@ =~= before.push(rule@));
                assert(views(lines@)[j - 1] == lines@[j - 1]@);
                assert(ignore_rules(text@).take(j as int) =~= ignore_rules(text@).take(j - 1).push(
                    rule@,
                ));
                assert(self@ =~= start + ignore_rules(text@).take(j as int));
            }
        }
        assert(ignore_rules(text@).take(j as int) =~= ignore_rules(text@));
    }

    /// Whether a rule of the index matches the directory path.
    pub fn excludes(&self, path: &str) -> (r: bool)
        ensures
            r == excluded_by(path@, self@),
    {
        let path_parts = components(path);
        let mut j: usize = 0;
        while j < self.rules.len()
            invariant
                views(path_parts@) == path_components(path@),
                j <= self.rules@.len(),
                forall|m: int| 0 <= m < j ==> !matches_rule(path@, #[trigger] self@[m]),
            decreases self.rules@.len() - j,
        {
            let rule_parts = components(self.rules[j].as_str());
            if starts_with_components(&path_parts, &rule_parts) {
                assert(matches_rule(path@, self@[j as int]));
                return true;
            }
            j = j + 1;
        }
        false
    }
}

} // verus!
