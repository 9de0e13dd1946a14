//! What is known of the machine at run time.
use crate::json;
use crate::json::{Json, JsonModel};
use crate::pairs;
use crate::text;
use vstd::prelude::*;
use vstd::string::*;

verus! {

/// The machine that configuration is built for.
#[derive(Debug)]
pub struct Metadata {
    pub os: String,
    pub arch: String,
    pub hostname: String,
    pub desktop: Option<String>,
    pub home: String,
    pub user: String,
}

/// The machine as mathematics sees it.
pub struct MetadataModel {
    pub os: Seq<char>,
    pub arch: Seq<char>,
    pub hostname: Seq<char>,
    pub desktop: Option<Seq<char>>,
    pub home: Seq<char>,
    pub user: Seq<char>,
}

pub open spec fn optional_text(t: Option<String>) -> Option<Seq<char>> {
    match t {
        Some(s) => Some(s@),
        None => None,
    }
}

impl View for Metadata {
    type V = MetadataModel;

    open spec fn view(&self) -> MetadataModel {
        MetadataModel {
            os: self.os@,
            arch: self.arch@,
            hostname: self.hostname@,
            desktop: optional_text(self.desktop),
            home: self.home@,
            user: self.user@,
        }
    }
}

/// The value that orders read the machine from.
pub open spec fn metadata_json(m: MetadataModel) -> JsonModel {
    JsonModel::Object(
        seq![
            ("os"@, JsonModel::Text(m.os)),
            ("arch"@, JsonModel::Text(m.arch)),
            ("hostname"@, JsonModel::Text(m.hostname)),
            (
                "desktop"@,
                match m.desktop {
                    Some(d) => JsonModel::Text(d),
                    None => JsonModel::Null,
                },
            ),
            ("home"@, JsonModel::Text(m.home)),
            ("user"@, JsonModel::Text(m.user)),
        ],
    )
}

/// The field of the machine with a name; `None` where there is no such field or
/// the machine has no value for it.
pub open spec fn metadata_field(m: MetadataModel, name: Seq<char>) -> Option<Seq<char>> {
    if name == "os"@ {
        Some(m.os)
    } else if name == "arch"@ {
        Some(m.arch)
    } else if name == "hostname"@ {
        Some(m.hostname)
    } else if name == "desktop"@ {
        m.desktop
    } else if name == "user"@ {
        Some(m.user)
    } else if name == "home"@ {
        Some(m.home)
    } else {
        None
    }
}

impl Metadata {
    /// The value that orders read the machine from.
    pub fn to_json(&self) -> (r: Json)
        ensures
            r@ == metadata_json(self@),
    {
        broadcast use {json::lemma_array_model, json::lemma_object_model};

        let mut e: Vec<(String, Json)> = Vec::new();
        e.push((text::owned("os"), Json::Text(text::owned(&self.os))));
        e.push((text::owned("arch"), Json::Text(text::owned(&self.arch))));
        e.push((text::owned("hostname"), Json::Text(text::owned(&self.hostname))));
        let desktop = match &self.desktop {
            Some(d) => Json::Text(text::owned(d)),
            None => Json::Null,
        };
        e.push((text::owned("desktop"), desktop));
        e.push((text::owned("home"), Json::Text(text::owned(&self.home))));
        e.push((text::owned("user"), Json::Text(text::owned(&self.user))));
        assert(json::entries_model(e@) =~= metadata_json(self@)->Object_0);
        Json::Object(e)
    }

    /// The field with a name.
    pub fn field(&self, name: &str) -> (r: Option<String>)
        ensures
            optional_text(r) == metadata_field(self@, name@),
    {
        if text::str_eq(name, "os") {
            Some(text::owned(&self.os))
        } else if text::str_eq(name, "arch") {
            Some(text::owned(&self.arch))
        } else if text::str_eq(name, "hostname") {
            Some(text::owned(&self.hostname))
        } else if text::str_eq(name, "desktop") {
            match &self.desktop {
                Some(d) => Some(text::owned(d)),
                None => None,
            }
        } else if text::str_eq(name, "user") {
            Some(text::owned(&self.user))
        } else if text::str_eq(name, "home") {
            Some(text::owned(&self.home))
        } else {
            None
        }
    }
}

/// The machine's fields by their names.
pub proof fn law_named_fields(m: MetadataModel)
    ensures
        metadata_field(m, "os"@) == Some(m.os),
        metadata_field(m, "arch"@) == Some(m.arch),
        metadata_field(m, "hostname"@) == Some(m.hostname),
        metadata_field(m, "desktop"@) == m.desktop,
        metadata_field(m, "user"@) == Some(m.user),
        metadata_field(m, "home"@) == Some(m.home),
{
    lemma_names();
}

proof fn lemma_names()
    ensures
        "arch"@ != "os"@,
        "hostname"@ != "os"@,
        "hostname"@ != "arch"@,
        "desktop"@ != "os"@,
        "desktop"@ != "arch"@,
        "desktop"@ != "hostname"@,
        "user"@ != "os"@,
        "user"@ != "arch"@,
        "user"@ != "hostname"@,
        "user"@ != "desktop"@,
        "home"@ != "os"@,
        "home"@ != "arch"@,
        "home"@ != "hostname"@,
        "home"@ != "desktop"@,
        "home"@ != "user"@,
{
    reveal_strlit("os");
    reveal_strlit("arch");
    reveal_strlit("hostname");
    reveal_strlit("desktop");
    reveal_strlit("user");
    reveal_strlit("home");
    assert("arch"@[0] == 'a');
    assert("os"@[0] == 'o');
    assert("hostname"@.len() == 8);
    assert("desktop"@[0] == 'd');
    assert("user"@[0] == 'u');
    assert("home"@[0] == 'h');
}

/// A field of the machine is the text that an order reads under its name; what the
/// machine does not know is no text there.
pub proof fn law_fields(m: MetadataModel, name: Seq<char>)
    ensures
        metadata_field(m, name) == match pairs::lookup(metadata_json(m)->Object_0, name) {
            Some(JsonModel::Text(t)) => Some(t),
            _ => None,
        },
{
    lemma_names();
    let e = metadata_json(m)->Object_0;
    let at = pairs::lemma_lookup(e, name);
    assert(e.len() == 6);
    assert(e[0].0 == "os"@ && e[1].0 == "arch"@ && e[2].0 == "hostname"@);
    assert(e[3].0 == "desktop"@ && e[4].0 == "home"@ && e[5].0 == "user"@);
}

} // verus!
