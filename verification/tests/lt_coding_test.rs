use fountain_codes::distributions::{ProbabilityDensityFunction, UNIT};
use fountain_codes::{Client, Decoder, Encoder, LtClient, LtSource, Metadata, Source};

/// The Robust Soliton distribution, tabulated for one block count.
struct RobustSoliton {
    weights: Vec<u64>,
}

impl RobustSoliton {
    fn new_using_heuristic(limit: u32, failure_probability: f64, hint_constant: f64) -> RobustSoliton {
        if limit == 1 {
            return RobustSoliton { weights: vec![UNIT] };
        }
        let k = limit as f64;
        let ripple = hint_constant * (k / failure_probability).ln() * k.sqrt();
        let switch_point = (k / ripple) as u32;
        let mut raw: Vec<f64> = Vec::with_capacity(limit as usize);
        let mut normalization_factor = 0.0;
        for point in 1..(limit + 1) {
            let d = point as f64;
            let ideal = if point == 1 { 1.0 / k } else { 1.0 / (d * (d - 1.0)) };
            let robust = if point < switch_point {
                ripple / (d * k)
            } else if point == switch_point {
                (ripple * (ripple / failure_probability).ln()) / k
            } else {
                0.0
            };
            normalization_factor += ideal;
            normalization_factor += robust;
            raw.push(ideal + robust);
        }
        let weights = raw
            .iter()
            .map(|density| ((density / normalization_factor) * (UNIT as f64)) as u64)
            .collect();
        RobustSoliton { weights }
    }
}

impl ProbabilityDensityFunction for RobustSoliton {
    fn density(&self, point: u32, _limit: u32) -> u64 {
        self.weights[(point - 1) as usize]
    }
}

fn block_count(byte_count: usize) -> u32 {
    ((byte_count + 1023) / 1024) as u32
}

#[test]
fn test_lt_coding_small() {
    let byte_count: usize = 100;

    let metadata = Metadata::new(byte_count as u64);
    let data = random_bytes(byte_count);
    let density = RobustSoliton::new_using_heuristic(block_count(byte_count), 0.1, 0.3);

    let mut source: LtSource = LtSource::new(metadata, data.clone(), &density).unwrap();
    let mut client: LtClient = LtClient::new(metadata, &density).unwrap();

    let packet = source.create_packet();
    println!("Packet {:?}", packet);

    println!("Client pre-packet {:?}", client);
    client.receive_packet(packet);
    println!("Client post-packet {:?}", client);

    let result = client.get_result().expect("One packet should be enough to transmit a small ammount of data...");
    assert_eq!(result, data);
}

#[test]
fn test_lt_coding_medium() {
    let byte_count: usize = 15 * 1024 * 1024;

    let metadata = Metadata::new(byte_count as u64);
    let data = random_bytes(byte_count);
    let density = RobustSoliton::new_using_heuristic(block_count(byte_count), 0.1, 0.3);

    let mut source: LtSource = LtSource::new(metadata, data, &density).unwrap();
    let mut client: LtClient = LtClient::new(metadata, &density).unwrap();

    // Going over a 100000 packets means the decoding almost certainly failed
    for _ in 0..100000 {
        let packet = source.create_packet();
        client.receive_packet(packet);

        let progress = client.decoding_progress();
        println!(
            "Decoding progress {}",
            (progress.decoded_blocks as f64) / (progress.block_count as f64)
        );
        if client.get_result().is_some() {
            return;
        }
    }
    assert!(client.get_result().is_some());
}

fn random_bytes(byte_count: usize) -> Vec<u8> {
    let mut result: Vec<u8> = Vec::with_capacity(byte_count);
    while result.len() < byte_count {
        result.push(rand::random());
    }
    result
}
