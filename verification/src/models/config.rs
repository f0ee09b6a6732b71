use vstd::prelude::*;
use crate::errors::NottoError;
use crate::io::paths;

verus! {

/// One profile: the editor to invoke and the directory that holds the
/// notes, either of which may be left to the defaults.
#[derive(Debug)]
pub struct ConfigContext {
    pub editor: Option<String>,
    pub base_dir: Option<String>,
}

impl Clone for ConfigContext {
    /// Cloning keeps the fields.
    fn clone(&self) -> (r: Self)
        ensures
            r == *self,
    {
        let editor = match &self.editor {
            Some(e) => Some(e.clone()),
            None => None,
        };
        let base_dir = match &self.base_dir {
            Some(d) => Some(d.clone()),
            None => None,
        };
        let r = ConfigContext { editor, base_dir };
        r
    }
}

/// The configuration: the active context's name and the known contexts.
/// The contexts live in a vector of pairs keyed by name, first match
/// winning.
pub struct Config {
    context: String,
    contexts: Vec<(String, ConfigContext)>,
}

/// The first context with the given name.
pub open spec fn lookup_ctx(s: Seq<(String, ConfigContext)>, name: Seq<char>) -> Option<
    ConfigContext,
>
    decreases s.len(),
{
    if s.len() == 0 {
        Option::None
    } else if s[0].0@ == name {
        Option::Some(s[0].1)
    } else {
        lookup_ctx(s.drop_first(), name)
    }
}

/// How a per-context setting resolves: to a value, to a missing context,
/// or to nothing, which the surrounding program fills from its own
/// defaults.
pub ghost enum Resolution {
    Found(Seq<char>),
    MissingContext(Seq<char>),
    Unset,
}

pub open spec fn resolve_field(
    s: Seq<(String, ConfigContext)>,
    name: Seq<char>,
    editor: bool,
) -> Resolution {
    match lookup_ctx(s, name) {
        Option::None => Resolution::MissingContext(name),
        Option::Some(c) => {
            let field = if editor {
                c.editor
            } else {
                c.base_dir
            };
            match field {
                Option::Some(v) => Resolution::Found(v@),
                Option::None => if name == "default"@ {
                    Resolution::Unset
                } else {
                    match lookup_ctx(s, "default"@) {
                        Option::None => Resolution::MissingContext("default"@),
                        Option::Some(d) => {
                            let dfield = if editor {
                                d.editor
                            } else {
                                d.base_dir
                            };
                            match dfield {
                                Option::Some(v) => Resolution::Found(v@),
                                Option::None => Resolution::Unset,
                            }
                        },
                    }
                },
            }
        },
    }
}

/// The contexts a fresh configuration starts with: one empty default.
pub fn default_contexts() -> (r: Vec<(String, ConfigContext)>)
    ensures
        r@.len() == 1,
        r@[0].0@ == "default"@,
        r@[0].1.editor is None,
        r@[0].1.base_dir is None,
{
    let mut v: Vec<(String, ConfigContext)> = Vec::new();
    v.push(("default".to_owned(), ConfigContext { editor: None, base_dir: None }));
    v
}

impl Config {
    pub closed spec fn context_view(&self) -> Seq<char> {
        self.context@
    }

    pub closed spec fn contexts_view(&self) -> Seq<(String, ConfigContext)> {
        self.contexts@
    }

    /// The name of the active context: the configured one, or the default
    /// when none is set. The surrounding program may override it from the
    /// environment before constructing the configuration.
    pub open spec fn current_context(&self) -> Seq<char> {
        if self.context_view().len() == 0 {
            "default"@
        } else {
            self.context_view()
        }
    }

    /// A configuration from parts, as the loader hands them over.
    pub fn with_contexts(context: String, contexts: Vec<(String, ConfigContext)>) -> (r: Config)
        ensures
            r.context_view() == context@,
            r.contexts_view() == contexts@,
    {
        Config { context, contexts }
    }

    /// The named context, or the naming error.
    pub fn get_config_context(&self, context: &String) -> (r: Result<ConfigContext, NottoError>)
        ensures
            match r {
                Result::Ok(c) => lookup_ctx(self.contexts_view(), context@) == Option::Some(c),
                Result::Err(e) => lookup_ctx(self.contexts_view(), context@) is None && (
                e matches NottoError::ContextNotFound { context: n } && n@ == context@),
            },
    {
        let n = self.contexts.len();
        let ghost s = self.contexts@;
        let mut i: usize = 0;
        proof {
            assert(s.skip(0) =~= s);
        }
        while i < n
            invariant
                0 <= i <= n,
                n == s.len(),
                s == self.contexts@,
                lookup_ctx(s, context@) == lookup_ctx(s.skip(i as int), context@),
            decreases n - i,
        {
            proof {
                assert(s.skip(i as int)[0] == s[i as int]);
                assert(s.skip(i as int).drop_first() =~= s.skip(i + 1));
            }
            if paths::str_eq(&self.contexts[i].0, context) {
                return Ok(self.contexts[i].1.clone());
            }
            i = i + 1;
        }
        proof {
            assert(s.skip(i as int) =~= Seq::<(String, ConfigContext)>::empty());
        }
        Err(NottoError::ContextNotFound { context: context.clone() })
    }

    fn get_field_from(&self, context: &String, editor: bool) -> (r: Result<String, NottoError>)
        ensures
            match r {
                Result::Ok(v) => resolve_field(self.contexts_view(), context@, editor)
                    == Resolution::Found(v@),
                Result::Err(e) => match resolve_field(self.contexts_view(), context@, editor) {
                    Resolution::Found(_) => false,
                    Resolution::MissingContext(n) => e matches NottoError::ContextNotFound {
                        context: cn,
                    } && cn@ == n,
                    Resolution::Unset => e is LoadConfigError,
                },
            },
    {
        let c = match self.get_config_context(context) {
            Ok(c) => c,
            Err(e) => {
                return Err(e);
            },
        };
        let field = if editor {
            &c.editor
        } else {
            &c.base_dir
        };
        match field {
            Some(v) => Ok(v.clone()),
            None => {
                let default_name = "default".to_owned();
                if paths::str_eq(context, &default_name) {
                    Err(
                        NottoError::LoadConfigError {
                            message: "the default context leaves this unset".to_owned(),
                        },
                    )
                } else {
                    let d = match self.get_config_context(&default_name) {
                        Ok(d) => d,
                        Err(e) => {
                            return Err(e);
                        },
                    };
                    let dfield = if editor {
                        &d.editor
                    } else {
                        &d.base_dir
                    };
                    match dfield {
                        Some(v) => Ok(v.clone()),
                        None => Err(
                            NottoError::LoadConfigError {
                                message: "the default context leaves this unset".to_owned(),
                            },
                        ),
                    }
                }
            },
        }
    }

    /// The editor for a named context, falling back to the default
    /// context; the caller fills a still-unset editor from the
    /// environment.
    pub fn get_editor_from(&self, context: &String) -> (r: Result<String, NottoError>)
        ensures
            match r {
                Result::Ok(v) => resolve_field(self.contexts_view(), context@, true)
                    == Resolution::Found(v@),
                Result::Err(e) => match resolve_field(self.contexts_view(), context@, true) {
                    Resolution::Found(_) => false,
                    Resolution::MissingContext(n) => e matches NottoError::ContextNotFound {
                        context: cn,
                    } && cn@ == n,
                    Resolution::Unset => e is LoadConfigError,
                },
            },
    {
        self.get_field_from(context, true)
    }

    /// The editor for the active context.
    pub fn get_editor(&self) -> (r: Result<String, NottoError>)
        ensures
            match r {
                Result::Ok(v) => resolve_field(self.contexts_view(), self.current_context(), true)
                    == Resolution::Found(v@),
                Result::Err(e) => !(resolve_field(
                    self.contexts_view(),
                    self.current_context(),
                    true,
                ) is Found),
            },
    {
        let ctx = self.current_context_exec();
        self.get_field_from(&ctx, true)
    }

    /// The notes directory for a named context, falling back to the
    /// default context; the caller fills a still-unset directory with its
    /// own default location.
    pub fn get_notes_dir_from(&self, context: &String) -> (r: Result<String, NottoError>)
        ensures
            match r {
                Result::Ok(v) => resolve_field(self.contexts_view(), context@, false)
                    == Resolution::Found(v@),
                Result::Err(e) => match resolve_field(self.contexts_view(), context@, false) {
                    Resolution::Found(_) => false,
                    Resolution::MissingContext(n) => e matches NottoError::ContextNotFound {
                        context: cn,
                    } && cn@ == n,
                    Resolution::Unset => e is LoadConfigError,
                },
            },
    {
        self.get_field_from(context, false)
    }

    /// The notes directory for the active context.
    pub fn get_notes_dir(&self) -> (r: Result<String, NottoError>)
        ensures
            match r {
                Result::Ok(v) => resolve_field(self.contexts_view(), self.current_context(), false)
                    == Resolution::Found(v@),
                Result::Err(e) => !(resolve_field(
                    self.contexts_view(),
                    self.current_context(),
                    false,
                ) is Found),
            },
    {
        let ctx = self.current_context_exec();
        self.get_field_from(&ctx, false)
    }

    fn current_context_exec(&self) -> (r: String)
        ensures
            r@ == self.current_context(),
    {
        if self.context.as_str().unicode_len() == 0 {
            "default".to_owned()
        } else {
            self.context.clone()
        }
    }
}

impl Default for Config {
    /// A fresh configuration: the default context, holding nothing yet.
    fn default() -> (r: Config)
        ensures
            r.context_view() == "default"@,
            r.contexts_view().len() == 1,
            r.contexts_view()[0].0@ == "default"@,
    {
        Config { context: "default".to_owned(), contexts: default_contexts() }
    }
}

} // verus!
