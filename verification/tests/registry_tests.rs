//! Tests of the registry state machine: registration, modification, removal,
//! lookups and the reverse index.

use siip_node::registry::Certificate;
use siip_node::registry::Error;
use siip_node::registry::Event;
use siip_node::registry::Origin;
use siip_node::registry::Registry;

const NAME: &str = "Adrian Teigen";
const DOMAIN: &str = "adrianteigen.com";
const IP_ADDR: &str = "13.49.70.106";
const INFO: &str = "{ \"Algorithm\": \"RSA\",   \"Key Size\": \"32\",   \"Exponent\": \"65537\" }";
const KEY: &str = "B4:02:EE:13";

fn register_default(reg: &mut Registry) {
    assert!(reg
        .register_certificate(
            Origin::signed(1),
            NAME.into(),
            DOMAIN.into(),
            IP_ADDR.into(),
            INFO.into(),
            KEY.into()
        )
        .is_ok());
}

#[test]
fn register_certificate() {
    let mut reg = Registry::new();
    register_default(&mut reg);

    let response = reg.get_certificate(Vec::<u8>::from(DOMAIN));
    let expected = Certificate {
        version_number: 1,
        owner_id: 1,
        name: NAME.into(),
        key: KEY.into(),
        info: INFO.into(),
        ip_addr: IP_ADDR.into(),
        domain: DOMAIN.into(),
    };
    assert_eq!(expected, response);
}

#[test]
fn already_taken() {
    let mut reg = Registry::new();
    register_default(&mut reg);

    assert_eq!(
        reg.register_certificate(
            Origin::signed(1),
            NAME.into(),
            DOMAIN.into(),
            IP_ADDR.into(),
            INFO.into(),
            KEY.into()
        ),
        Err(Error::DomainAlreadyTaken)
    );
}

#[test]
fn invalid_domain() {
    let mut reg = Registry::new();
    let new_domain: Vec<u8> =
        "Donaudampfschifffahrtselektrizitätenhauptbetriebswerkbauunterbeamtengesellschaft.de"
            .into();

    // Domain name is too long
    assert_eq!(
        reg.register_certificate(
            Origin::signed(1),
            NAME.into(),
            new_domain,
            IP_ADDR.into(),
            INFO.into(),
            KEY.into()
        ),
        Err(Error::InvalidDomain)
    );

    // Domain contains an invalid symbol
    let new_domain: Vec<u8> = "hans*müller.de".into();
    assert_eq!(
        reg.register_certificate(
            Origin::signed(1),
            NAME.into(),
            new_domain,
            IP_ADDR.into(),
            INFO.into(),
            KEY.into()
        ),
        Err(Error::InvalidDomain)
    );
}

#[test]
fn invalid_signature() {
    let mut reg = Registry::new();
    assert!(reg
        .register_certificate(
            Origin::none(),
            NAME.into(),
            DOMAIN.into(),
            IP_ADDR.into(),
            INFO.into(),
            KEY.into()
        )
        .is_err());
}

#[test]
fn uppercase_domain() {
    let mut reg = Registry::new();
    let new_domain: Vec<u8> = "AdrianTeigen.com".into();
    assert!(reg
        .register_certificate(
            Origin::signed(1),
            NAME.into(),
            new_domain,
            IP_ADDR.into(),
            INFO.into(),
            KEY.into()
        )
        .is_ok());

    // The saved domain is lowercase
    let response = reg.get_certificate(Vec::<u8>::from(DOMAIN));
    let expected = Certificate {
        version_number: 1,
        owner_id: 1,
        name: NAME.into(),
        info: INFO.into(),
        key: KEY.into(),
        ip_addr: IP_ADDR.into(),
        domain: DOMAIN.into(),
    };
    assert_eq!(expected, response);
}

#[test]
fn modify_certificate() {
    let mut reg = Registry::new();
    register_default(&mut reg);

    let other_public_key: Vec<u8> = "01:23:45:67:89:AB:CD:EF".into();
    assert!(reg
        .modify_certificate(
            Origin::signed(1),
            NAME.into(),
            DOMAIN.into(),
            IP_ADDR.into(),
            INFO.into(),
            other_public_key.clone(),
        )
        .is_ok());

    let response = reg.get_certificate(Vec::<u8>::from(DOMAIN));
    let expected = Certificate {
        version_number: 1,
        owner_id: 1,
        name: NAME.into(),
        info: INFO.into(),
        key: other_public_key.clone(),
        ip_addr: IP_ADDR.into(),
        domain: DOMAIN.into(),
    };
    assert_eq!(expected, response);
}

#[test]
fn modify_nonexistant() {
    let mut reg = Registry::new();
    register_default(&mut reg);

    // "A_different_domain" fails domain validation (no top-level label, a
    // forbidden underscore), and every field is validated before the lookup.
    assert_eq!(
        reg.modify_certificate(
            Origin::signed(1),
            NAME.into(),
            "A_different_domain".into(),
            IP_ADDR.into(),
            INFO.into(),
            KEY.into()
        ),
        Err(Error::InvalidDomain)
    );

    // A well-formed domain that was never registered is reported as absent.
    assert_eq!(
        reg.modify_certificate(
            Origin::signed(1),
            NAME.into(),
            "different.domain.com".into(),
            IP_ADDR.into(),
            INFO.into(),
            KEY.into()
        ),
        Err(Error::NonexistentDomain)
    );
}

#[test]
fn modify_uppercase_domain() {
    let mut reg = Registry::new();
    register_default(&mut reg);

    assert_eq!(
        reg.modify_certificate(
            Origin::signed(1),
            NAME.into(),
            "AdrianTeigen.com".into(),
            IP_ADDR.into(),
            INFO.into(),
            KEY.into()
        ),
        Err(Error::NoModifications)
    );
}

#[test]
fn modify_invalid_signature() {
    let mut reg = Registry::new();
    register_default(&mut reg);

    // Transaction is not signed
    assert!(reg
        .modify_certificate(
            Origin::none(),
            NAME.into(),
            DOMAIN.into(),
            IP_ADDR.into(),
            INFO.into(),
            "A new public key that I don't feel like typing.".into()
        )
        .is_err());
}

#[test]
fn modify_different_owner() {
    let mut reg = Registry::new();
    register_default(&mut reg);

    assert_eq!(
        reg.modify_certificate(
            Origin::signed(2),
            NAME.into(),
            DOMAIN.into(),
            IP_ADDR.into(),
            INFO.into(),
            "01:23:45:67:89:AB:CD:EF".into()
        ),
        Err(Error::DifferentOwner)
    );
}

#[test]
fn delete_certificate() {
    let mut reg = Registry::new();
    register_default(&mut reg);

    assert!(reg
        .remove_certificate(Origin::signed(1), DOMAIN.into())
        .is_ok());

    let empty_cert = reg.get_certificate(Vec::<u8>::from(DOMAIN));
    assert!(empty_cert.version_number == 0);

    // A second removal reports the domain as absent.
    assert_eq!(
        reg.remove_certificate(Origin::signed(1), DOMAIN.into()),
        Err(Error::NonexistentDomain)
    );
}

#[test]
fn delete_nonexistent() {
    let mut reg = Registry::new();
    assert_eq!(
        reg.remove_certificate(Origin::signed(1), DOMAIN.into()),
        Err(Error::NonexistentDomain)
    );
}

#[test]
fn delete_invalid_signature() {
    let mut reg = Registry::new();
    register_default(&mut reg);

    assert!(reg
        .remove_certificate(Origin::none(), DOMAIN.into())
        .is_err());
}

#[test]
fn delete_different_owner() {
    let mut reg = Registry::new();
    register_default(&mut reg);

    assert_eq!(
        reg.remove_certificate(Origin::signed(7), DOMAIN.into()),
        Err(Error::DifferentOwner)
    );
}

#[test]
fn invalid_json() {
    let mut reg = Registry::new();
    assert_eq!(
        reg.register_certificate(
            Origin::signed(1),
            NAME.into(),
            DOMAIN.into(),
            IP_ADDR.into(),
            "This }{{ is not valid json formatting.".into(),
            KEY.into()
        ),
        Err(Error::InvalidInfo)
    );
}

#[test]
fn invalid_ip() {
    let mut reg = Registry::new();
    let new_ip: Vec<u8> = "2001:0db8:85a3:0000:0000:8a2e:0370:7334".into();
    assert_eq!(
        reg.register_certificate(
            Origin::signed(1),
            NAME.into(),
            DOMAIN.into(),
            new_ip,
            INFO.into(),
            KEY.into()
        ),
        Err(Error::InvalidIP)
    );

    let new_ip: Vec<u8> = "256.256.256.256".into();
    assert_eq!(
        reg.register_certificate(
            Origin::signed(1),
            NAME.into(),
            DOMAIN.into(),
            new_ip,
            INFO.into(),
            KEY.into()
        ),
        Err(Error::InvalidIP)
    );

    let new_ip: Vec<u8> = "-1.-1.-1.-1".into();
    assert_eq!(
        reg.register_certificate(
            Origin::signed(1),
            NAME.into(),
            DOMAIN.into(),
            new_ip,
            INFO.into(),
            KEY.into()
        ),
        Err(Error::InvalidIP)
    );
}

#[test]
fn invalid_key() {
    let mut reg = Registry::new();
    let new_key: Vec<u8> = "G".into();
    assert_eq!(
        reg.register_certificate(
            Origin::signed(1),
            NAME.into(),
            DOMAIN.into(),
            IP_ADDR.into(),
            INFO.into(),
            new_key
        ),
        Err(Error::InvalidKey)
    );

    let new_key: Vec<u8> = "01/02/56".into();
    assert_eq!(
        reg.register_certificate(
            Origin::signed(1),
            NAME.into(),
            DOMAIN.into(),
            IP_ADDR.into(),
            INFO.into(),
            new_key
        ),
        Err(Error::InvalidKey)
    );

    let new_key: Vec<u8> = ":::::".into();
    assert_eq!(
        reg.register_certificate(
            Origin::signed(1),
            NAME.into(),
            DOMAIN.into(),
            IP_ADDR.into(),
            INFO.into(),
            new_key
        ),
        Err(Error::InvalidKey)
    );
}

#[test]
fn invalid_name() {
    let mut reg = Registry::new();
    assert_eq!(
        reg.register_certificate(
            Origin::signed(1),
            Vec::new(),
            DOMAIN.into(),
            IP_ADDR.into(),
            INFO.into(),
            KEY.into()
        ),
        Err(Error::InvalidOwner)
    );
}

#[test]
fn ip_round_trip() {
    let mut reg = Registry::new();
    register_default(&mut reg);

    let listed = reg.get_certificates_by_ip(IP_ADDR.into());
    assert_eq!(listed.len(), 1);
    assert_eq!(listed[0], reg.get_certificate(Vec::<u8>::from(DOMAIN)));

    assert!(reg
        .remove_certificate(Origin::signed(1), DOMAIN.into())
        .is_ok());
    assert_eq!(reg.get_certificates_by_ip(IP_ADDR.into()).len(), 0);
}

#[test]
fn modify_moves_reverse_entry() {
    let mut reg = Registry::new();
    register_default(&mut reg);

    let other_ip = "10.0.0.1";
    assert!(reg
        .modify_certificate(
            Origin::signed(1),
            NAME.into(),
            DOMAIN.into(),
            other_ip.into(),
            INFO.into(),
            KEY.into()
        )
        .is_ok());

    assert_eq!(reg.get_certificates_by_ip(IP_ADDR.into()).len(), 0);
    let listed = reg.get_certificates_by_ip(other_ip.into());
    assert_eq!(listed.len(), 1);
    assert_eq!(listed[0].domain, Vec::<u8>::from(DOMAIN));
}

#[test]
fn events_are_recorded() {
    let mut reg = Registry::new();
    register_default(&mut reg);
    assert!(reg
        .modify_certificate(
            Origin::signed(1),
            NAME.into(),
            DOMAIN.into(),
            IP_ADDR.into(),
            INFO.into(),
            "01:23:45:67:89:AB:CD:EF".into()
        )
        .is_ok());
    assert!(reg
        .remove_certificate(Origin::signed(1), DOMAIN.into())
        .is_ok());

    let events = reg.events();
    assert_eq!(events.len(), 3);
    assert!(matches!(&events[0], Event::CertificateRegistered(c, 1) if c.domain == Vec::<u8>::from(DOMAIN)));
    assert!(matches!(&events[1], Event::CertificateModified(_, _, 1)));
    assert!(matches!(&events[2], Event::CertificateRemoved(_, 1)));
}

#[test]
fn unsigned_origin_error() {
    let mut reg = Registry::new();
    assert_eq!(
        reg.register_certificate(
            Origin::none(),
            NAME.into(),
            DOMAIN.into(),
            IP_ADDR.into(),
            INFO.into(),
            KEY.into()
        ),
        Err(Error::BadOrigin)
    );
    assert_eq!(
        reg.remove_certificate(Origin::none(), DOMAIN.into()),
        Err(Error::BadOrigin)
    );
}

#[test]
fn shared_ip_bucket() {
    let mut reg = Registry::new();
    register_default(&mut reg);
    assert!(reg
        .register_certificate(
            Origin::signed(2),
            b"Bob".to_vec(),
            b"bob.example.com".to_vec(),
            IP_ADDR.into(),
            b"{}".to_vec(),
            b"12:12:12".to_vec(),
        )
        .is_ok());

    // both certificates sit in the bucket of the shared address, in order
    let listed = reg.get_certificates_by_ip(IP_ADDR.into());
    assert_eq!(listed.len(), 2);
    assert_eq!(listed[0].domain, Vec::<u8>::from(DOMAIN));
    assert_eq!(listed[1].domain, Vec::<u8>::from("bob.example.com"));

    // removing one leaves exactly the other
    assert!(reg
        .remove_certificate(Origin::signed(1), DOMAIN.into())
        .is_ok());
    let listed = reg.get_certificates_by_ip(IP_ADDR.into());
    assert_eq!(listed.len(), 1);
    assert_eq!(listed[0].domain, Vec::<u8>::from("bob.example.com"));
}
