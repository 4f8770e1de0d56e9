use gong_cli::api::{CallMetadata, CallTranscript, CrmContext, CrmField, CrmObject, ExtensiveCall, Party};
use gong_cli::callfile::frontmatter_call_id;
use gong_cli::client::find_call;
use gong_cli::renderer::{render_call, MergedCall};

fn call_with_id(id: &str) -> ExtensiveCall {
    ExtensiveCall {
        metadata: CallMetadata {
            id: id.to_owned(),
            title: "Fixture".to_owned(),
            started: "2026-01-01T00:00:00Z".to_owned(),
            duration: 60,
            primary_user_id: None,
            system: None,
            url: None,
        },
        parties: vec![],
        context: vec![],
        content: None,
    }
}

#[test]
fn nineteen_digit_call_ids_remain_exact_strings() {
    let calls = vec![call_with_id("1860496513693944600"), call_with_id("1860496513693944597")];
    let call = find_call(calls, "1860496513693944597").unwrap();
    assert_eq!(call.metadata.id, "1860496513693944597");
    assert_ne!(call.metadata.id, "1860496513693944600");

    let transcript = CallTranscript { call_id: call.metadata.id.clone(), transcript: vec![] };
    let rendered = render_call(&MergedCall { call, transcript }).unwrap();
    assert_eq!(
        frontmatter_call_id(&rendered.markdown).as_deref(),
        Some("1860496513693944597")
    );
}

#[test]
fn a_call_is_customer_unless_every_party_is_internal() {
    let party = |affiliation: &str| Party {
        id: None,
        name: None,
        email_address: None,
        title: None,
        affiliation: affiliation.to_owned(),
        speaker_id: None,
        user_id: None,
    };
    let mut call = call_with_id("1");
    assert!(!call.is_customer_call());
    call.parties = vec![party("Internal"), party("Internal")];
    assert!(!call.is_customer_call());
    call.parties.push(party("Unknown"));
    assert!(call.is_customer_call());
}

#[test]
fn the_account_name_is_the_name_field_of_the_first_account_object() {
    let mut call = call_with_id("1");
    assert_eq!(call.account_name(), None);
    call.context = vec![
        CrmContext { objects: vec![CrmObject { object_type: "Opportunity".to_owned(), fields: vec![CrmField { name: "Name".to_owned(), value: Some("Deal".to_owned()) }] }] },
        CrmContext {
            objects: vec![
                CrmObject { object_type: "Account".to_owned(), fields: vec![CrmField { name: "Name".to_owned(), value: Some("Acme".to_owned()) }] },
                CrmObject { object_type: "Account".to_owned(), fields: vec![CrmField { name: "Name".to_owned(), value: Some("Other".to_owned()) }] },
            ],
        },
    ];
    assert_eq!(call.account_name(), Some("Acme"));
    call.context[1].objects[0].fields[0].value = None;
    assert_eq!(call.account_name(), None);
}

#[test]
fn the_host_is_the_party_with_the_primary_user_id() {
    let mut call = call_with_id("1");
    call.metadata.primary_user_id = Some("u2".to_owned());
    let person = |name: &str, user: &str| Party {
        id: None,
        name: Some(name.to_owned()),
        email_address: None,
        title: None,
        affiliation: "Internal".to_owned(),
        speaker_id: None,
        user_id: Some(user.to_owned()),
    };
    call.parties = vec![person("Ann", "u1"), person("Bob", "u2")];
    assert_eq!(call.host_name(), Some("Bob"));
    call.metadata.primary_user_id = None;
    assert_eq!(call.host_name(), None);
}
