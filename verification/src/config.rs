use vstd::prelude::*;

use crate::text::chars_of;
use crate::text::push_str_chars;
use crate::text::string_from_chars;
use crate::text::trim_spec;
use crate::text::trimmed;

verus! {

/// The resolved application settings: paths and git parameters, as plain
/// text values.
pub struct AppConfig {
    pub config_dir: String,
    pub todo_file: String,
    pub env_file: String,
    pub git_remote: Option<String>,
    pub git_branch: String,
    pub git_author_name: Option<String>,
    pub git_author_email: Option<String>,
    pub github_token: Option<String>,
}

/// Is the text more than whitespace?
pub open spec fn non_blank(s: Seq<char>) -> bool {
    trim_spec(s).len() != 0
}

/// The first candidate that is present and not blank.
pub fn first_non_empty(first: Option<String>, second: Option<String>) -> (r: Option<String>)
    ensures
        ({
            let fv = match first {
                Some(ref f) => Some(f@),
                None => None::<Seq<char>>,
            };
            let sv = match second {
                Some(ref s) => Some(s@),
                None => None::<Seq<char>>,
            };
            match r {
                Some(v) => (fv matches Some(f) && non_blank(f) && v@ == f) || ((match fv {
                    Some(f) => !non_blank(f),
                    None => true,
                }) && (sv matches Some(g) && non_blank(g) && v@ == g)),
                None => (match fv {
                    Some(f) => !non_blank(f),
                    None => true,
                }) && (match sv {
                    Some(g) => !non_blank(g),
                    None => true,
                }),
            }
        }),
{
    match first {
        Some(f) => {
            let fc = chars_of(f.as_str());
            let ft = trimmed(&fc);
            if ft.len() != 0 {
                return Some(f);
            }
            match second {
                Some(g) => {
                    let gc = chars_of(g.as_str());
                    let gt = trimmed(&gc);
                    if gt.len() != 0 {
                        Some(g)
                    } else {
                        None
                    }
                },
                None => None,
            }
        },
        None => {
            match second {
                Some(g) => {
                    let gc = chars_of(g.as_str());
                    let gt = trimmed(&gc);
                    if gt.len() != 0 {
                        Some(g)
                    } else {
                        None
                    }
                },
                None => None,
            }
        },
    }
}

/// The message given when no git remote is configured.
pub open spec fn missing_remote_msg(env_file: Seq<char>) -> Seq<char> {
    "missing git remote; set TODOS_GIT_REMOTE in "@ + env_file + " or environment"@
}

/// The configured git remote, or the error naming where to set one.
pub fn require_remote(config: &AppConfig) -> (r: Result<&str, String>)
    ensures
        match r {
            Ok(s) => config.git_remote matches Some(g) && s@ == g@,
            Err(e) => config.git_remote is None && e@ == missing_remote_msg(config.env_file@),
        },
{
    match &config.git_remote {
        Some(remote) => Ok(remote.as_str()),
        None => {
            let mut out: Vec<char> = Vec::new();
            push_str_chars(&mut out, "missing git remote; set TODOS_GIT_REMOTE in ");
            push_str_chars(&mut out, config.env_file.as_str());
            push_str_chars(&mut out, " or environment");
            proof {
                assert(out@ =~= missing_remote_msg(config.env_file@));
            }
            Err(string_from_chars(&out))
        },
    }
}

/// A path with a leading `~` expanded against the home directory, and a
/// relative path resolved against the working directory.
pub open spec fn expand_tilde_spec(path: Seq<char>, home: Seq<char>, cwd: Seq<char>) -> Seq<char> {
    if path == "~"@ {
        home
    } else if crate::text::has_prefix(path, "~/"@) {
        join_path_spec(home, path.skip(2))
    } else if path.len() > 0 && path[0] == '/' {
        path
    } else {
        join_path_spec(cwd, path)
    }
}

/// Joining two path pieces with a single separator.
pub open spec fn join_path_spec(a: Seq<char>, b: Seq<char>) -> Seq<char> {
    if b.len() > 0 && b[0] == '/' {
        b
    } else if a.len() > 0 && a.last() == '/' {
        a + b
    } else {
        a + "/"@ + b
    }
}

fn join_path(a: &Vec<char>, b: &Vec<char>) -> (r: Vec<char>)
    ensures
        r@ == join_path_spec(a@, b@),
{
    if b.len() > 0 && b[0] == '/' {
        let mut out: Vec<char> = Vec::new();
        crate::text::push_sub(&mut out, b, 0, b.len());
        proof {
            assert(out@ =~= b@);
        }
        return out;
    }
    let mut out: Vec<char> = Vec::new();
    crate::text::push_sub(&mut out, a, 0, a.len());
    proof {
        assert(out@ =~= a@);
    }
    if !(a.len() > 0 && a[a.len() - 1] == '/') {
        out.push('/');
        proof {
            reveal_strlit("/");
            assert(out@ =~= a@ + "/"@);
        }
    }
    let ghost mid = out@;
    crate::text::push_sub(&mut out, b, 0, b.len());
    proof {
        assert(b@.subrange(0, b@.len() as int) =~= b@);
    }
    out
}

/// Expand a leading `~` against the home directory and resolve a relative
/// path against the working directory.
pub fn expand_tilde(path: &str, home: &str, cwd: &str) -> (r: String)
    ensures
        r@ == expand_tilde_spec(path@, home@, cwd@),
{
    let p = chars_of(path);
    let h = chars_of(home);
    let c = chars_of(cwd);
    proof {
        reveal_strlit("~");
        reveal_strlit("~/");
    }
    if crate::text::chars_eq_str(&p, "~") {
        return string_from_chars(&h);
    }
    if p.len() >= 2 && crate::text::range_eq_str(&p, 0, 2, "~/") {
        proof {
            assert(p@.take(2) =~= p@.subrange(0, 2));
        }
        let rest = crate::text::subvec(&p, 2, p.len());
        proof {
            assert(rest@ =~= p@.skip(2));
        }
        let joined = join_path(&h, &rest);
        return string_from_chars(&joined);
    }
    proof {
        if p@.len() >= 2 {
            assert(p@.take(2) =~= p@.subrange(0, 2));
        }
    }
    if p.len() > 0 && p[0] == '/' {
        return string_from_chars(&p);
    }
    let joined = join_path(&c, &p);
    string_from_chars(&joined)
}

} // verus!
