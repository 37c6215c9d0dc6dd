use network_disco::client::{can_prime, packet_info, Client, PacketError};
use network_disco::protocol::{div_ceil, log2_ceil, log2_floor, power_of_two};

static TEST_ADDRESS: &str = "127.0.0.1";

fn primed_client() -> Client {
    let mut client = Client::new("127.0.0.1:9001");
    client.prime(1366, 3, 0);
    client
}

#[test]
fn test_client_new() {
    let client_address = TEST_ADDRESS.to_owned() + ":9001";
    let client = Client::new(&client_address);
    assert_eq!(client.get_server_address(), client_address);
    assert_eq!(client.num_channels(), 0);
}

#[test]
fn test_client_prime() {
    let client_address = TEST_ADDRESS.to_owned() + ":9001";
    let mut client = Client::new(&client_address);
    client.prime(1366, 3, 0);
    assert_eq!(client.get_key(), 192);
    assert_eq!(client.get_rows(), 64);
    assert_eq!(client.get_audio_buf_size(), 1024);
    assert_eq!(client.get_payload_size(), 1366);
    assert_eq!(client.get_buffer_len(0), 262144);
}

#[test]
fn prime_keeps_address_and_rate() {
    let mut client = Client::new("10.0.0.2:7000");
    client.prime(1366, 3, 7);
    assert_eq!(client.get_sample_rate(), 7);
    assert_eq!(client.get_server_address(), "10.0.0.2:7000");
    assert_eq!(client.num_channels(), 1);
    assert_eq!(client.get_row_count(0), 0);
    assert!(client.read_buffer(0).iter().all(|&b| b == 0));
}

#[test]
fn prime_for_power_of_two_chunks() {
    let mut client = Client::new("127.0.0.1:9001");
    client.prime(1024, 4, 0);
    assert_eq!(client.get_key(), 256);
    assert_eq!(client.get_rows(), 64);
    assert_eq!(client.get_audio_buf_size(), 1024);
    assert_eq!(client.get_buffer_len(0), 64 * 4096);

    let mut single = Client::new("127.0.0.1:9001");
    single.prime(100, 1, 0);
    assert_eq!(single.get_key(), 256);
    assert_eq!(single.get_rows(), 256);
    assert_eq!(single.get_audio_buf_size(), 16);

    let mut many = Client::new("127.0.0.1:9001");
    many.prime(4, 255, 0);
    assert_eq!(many.get_key(), 255);
    assert_eq!(many.get_rows(), 1);
    assert_eq!(many.get_audio_buf_size(), 128);
}

#[test]
fn can_prime_checks_parameters() {
    assert!(can_prime(1366, 3));
    assert!(can_prime(1, 4));
    assert!(can_prime(4, 256));
    assert!(!can_prime(1366, 0));
    assert!(!can_prime(1366, 257));
    assert!(!can_prime(1, 3));
    assert!(!can_prime(0, 3));
    assert!(!can_prime(usize::MAX / 2, 3));
}

#[test]
fn next_row_cycles_through_all_rows() {
    let mut client = primed_client();
    let rows = client.get_rows();
    for expected in 0..rows {
        assert_eq!(client.get_row_count(0), expected);
        let row = client.get_next_row(0);
        assert_eq!(row.len(), 4096);
    }
    assert_eq!(client.get_row_count(0), 0);
}

#[test]
fn next_row_returns_the_row_under_the_cursor() {
    let mut client = primed_client();
    // Column 0 of row 1: sequence code 3.
    let mut datagram = vec![0u8, 3, 0, 3];
    datagram.extend(std::iter::repeat(0xAB).take(1366));
    assert_eq!(client.store_packet(&datagram), Ok(()));
    assert!(client.get_next_row(0).iter().all(|&b| b == 0));
    let row = client.get_next_row(0).to_vec();
    assert!(row[..1366].iter().all(|&b| b == 0xAB));
    assert!(row[1366..].iter().all(|&b| b == 0));
    assert_eq!(client.get_row_count(0), 2);
}

#[test]
fn store_places_payload_at_row_and_column() {
    let mut client = primed_client();
    // Row 5, column 2: sequence code 17.
    let datagram = vec![0u8, 17, 0, 3, 1, 2, 3];
    assert_eq!(client.store_packet(&datagram), Ok(()));
    let at = 5 * 4096 + 2 * 1366;
    let ring = client.read_buffer(0);
    assert_eq!(&ring[at..at + 3], &[1, 2, 3]);
    assert_eq!(ring[at - 1], 0);
    assert_eq!(ring[at + 3], 0);
    assert_eq!(ring.iter().filter(|&&b| b != 0).count(), 3);
}

#[test]
fn store_rejects_short_datagram() {
    let mut client = primed_client();
    assert_eq!(client.store_packet(&[0, 1, 0]), Err(PacketError::ShortRead));
    assert_eq!(client.store_packet(&[]), Err(PacketError::ShortRead));
}

#[test]
fn store_rejects_malformed_headers() {
    let mut client = primed_client();
    // Unknown channel.
    assert_eq!(client.store_packet(&[1, 0, 0, 3, 9]), Err(PacketError::MalformedHeader));
    // Chunk count other than the session's, zero included.
    assert_eq!(client.store_packet(&[0, 0, 0, 4, 9]), Err(PacketError::MalformedHeader));
    assert_eq!(client.store_packet(&[0, 0, 0, 0, 9]), Err(PacketError::MalformedHeader));
    // Row 64 lies past the 64 rows of the ring.
    assert_eq!(client.store_packet(&[0, 192, 0, 3, 9]), Err(PacketError::MalformedHeader));
    // Payload running past the end of the row: column 2 leaves 1364 bytes.
    let mut long = vec![0u8, 2, 0, 3];
    long.extend(std::iter::repeat(9).take(1365));
    assert_eq!(client.store_packet(&long), Err(PacketError::MalformedHeader));
    assert!(client.read_buffer(0).iter().all(|&b| b == 0));
    // Exactly filling the row is fine.
    long.pop();
    assert_eq!(client.store_packet(&long), Ok(()));
}

#[test]
fn probe_skips_last_fragments() {
    // First and middle fragments of a three-fragment block.
    assert_eq!(packet_info(&[0, 0, 0, 3, 1, 2]), Some((2, 3, 0)));
    assert_eq!(packet_info(&[0, 4, 9, 3, 1]), Some((1, 3, 9)));
    // Last fragment of a block.
    assert_eq!(packet_info(&[0, 2, 0, 3, 1, 2]), None);
    assert_eq!(packet_info(&[0, 5, 0, 3, 1, 2]), None);
    // Blocks sent whole are always taken.
    assert_eq!(packet_info(&[0, 7, 0, 1, 1, 2, 3]), Some((3, 1, 0)));
    // Short or malformed datagrams.
    assert_eq!(packet_info(&[0, 0, 0]), None);
    assert_eq!(packet_info(&[0, 0, 0, 0, 1]), None);
}

#[test]
fn integer_helpers() {
    assert_eq!(div_ceil(4096, 1400), 3);
    assert_eq!(div_ceil(4096, 3), 1366);
    assert_eq!(div_ceil(4096, 4096), 1);
    assert_eq!(div_ceil(0, 7), 0);
    assert_eq!(log2_floor(1), 0);
    assert_eq!(log2_floor(1024), 10);
    assert_eq!(log2_floor(1024 + 1), 10);
    assert_eq!(log2_floor(4098 / 4), 10);
    assert_eq!(log2_ceil(1), 0);
    assert_eq!(log2_ceil(3), 2);
    assert_eq!(log2_ceil(4), 2);
    assert_eq!(log2_ceil(5), 3);
    assert_eq!(log2_ceil(255), 8);
    assert_eq!(power_of_two(0), 1);
    assert_eq!(power_of_two(10), 1024);
}
