use agv_scheduler::domain::{
    Battery, Heartbeat, Location, NodeId, Path, RobotId, RobotStatus, TaskId,
};
use agv_scheduler::engine::Dispatch;
use agv_scheduler::storage::MemoryStore;
use agv_scheduler::transport::codec::MAX_FRAME_LEN;
use agv_scheduler::transport::connection::{register_ack, task_assign};
use agv_scheduler::transport::{
    BincodeCodec, ClientMsg, Connection, ConnectionAction, FrameError, ServerMsg, TransportError,
};
use bytes::BytesMut;

fn codec() -> BincodeCodec<ClientMsg, ServerMsg> {
    BincodeCodec::new()
}

#[test]
fn a_frame_has_a_big_endian_length() {
    let mut c = codec();
    let mut buf = BytesMut::new();
    c.encode_frame(&[7, 8, 9], &mut buf);
    assert_eq!(&buf[..], &[0, 0, 0, 3, 7, 8, 9]);
    let long = vec![1u8; 0x1_0203];
    let mut buf = BytesMut::new();
    c.encode_frame(&long, &mut buf);
    assert_eq!(&buf[..4], &[0, 1, 2, 3]);
    assert_eq!(buf.len(), 4 + 0x1_0203);
}

#[test]
fn reading_gives_back_what_was_written() {
    let mut c: BincodeCodec<ClientMsg, ServerMsg> = BincodeCodec::default();
    let mut buf = BytesMut::new();
    c.encode_frame(&[1, 2], &mut buf);
    c.encode_frame(&[], &mut buf);
    c.encode_frame(&[3], &mut buf);
    assert_eq!(c.decode_frame(&mut buf), Ok(Some(vec![1, 2])));
    assert_eq!(c.decode_frame(&mut buf), Ok(Some(vec![])));
    assert_eq!(c.decode_frame(&mut buf), Ok(Some(vec![3])));
    assert_eq!(c.decode_frame(&mut buf), Ok(None));
    assert!(buf.is_empty());
}

#[test]
fn a_frame_is_added_where_there_is_room() {
    let mut c = codec();
    let mut buf = BytesMut::new();
    assert!(c.try_encode_frame(&[7, 8, 9], &mut buf));
    assert_eq!(&buf[..], &[0, 0, 0, 3, 7, 8, 9]);
    assert_eq!(c.decode_frame(&mut buf), Ok(Some(vec![7, 8, 9])));
}

#[test]
fn a_part_of_a_frame_is_left_alone() {
    let mut c = codec();
    let mut whole = BytesMut::new();
    c.encode_frame(&[5, 6, 7], &mut whole);
    for n in 0..whole.len() {
        let mut part = BytesMut::new();
        part.extend_from_slice(&whole[..n]);
        assert_eq!(c.decode_frame(&mut part), Ok(None));
        assert_eq!(&part[..], &whole[..n]);
    }
}

#[test]
fn an_oversized_frame_is_refused() {
    let mut c = codec();
    let mut buf = BytesMut::new();
    c.encode_frame(&vec![0u8; MAX_FRAME_LEN + 1], &mut buf);
    let before = buf.len();
    assert_eq!(c.decode_frame(&mut buf), Err(FrameError::TooLarge));
    assert_eq!(buf.len(), before);
    assert_eq!(FrameError::TooLarge.message(), "frame too large");
    let mut buf = BytesMut::new();
    c.encode_frame(&vec![1u8; MAX_FRAME_LEN], &mut buf);
    assert_eq!(
        c.decode_frame(&mut buf).unwrap().unwrap().len(),
        MAX_FRAME_LEN
    );
}

fn loc() -> Location {
    Location::at_node(NodeId(3), 3, 4)
}

fn beat(id: u64, timestamp: u64) -> ClientMsg {
    ClientMsg::Heartbeat(Heartbeat {
        id: RobotId(id),
        battery: Battery(50),
        location: loc(),
        status: RobotStatus::Idle,
        timestamp,
        carrying: false,
    })
}

#[test]
fn a_connection_registers_first() {
    let mut store = MemoryStore::new();
    let mut c = Connection::new();
    assert_eq!(c.close(), ConnectionAction::Nothing);
    assert_eq!(
        c.receive(&mut store, beat(1, 5), 10),
        ConnectionAction::Nothing
    );
    assert_eq!(
        c.receive(
            &mut store,
            ClientMsg::TaskDone {
                robot: RobotId(1),
                task: TaskId(2)
            },
            10
        ),
        ConnectionAction::Nothing
    );
    assert_eq!(store.robot_count(), 0);
    let register = ClientMsg::Register {
        id: RobotId(1),
        location: loc(),
        battery: Battery(70),
    };
    assert_eq!(
        c.receive(&mut store, register, 11),
        ConnectionAction::Welcome { robot: RobotId(1) }
    );
    assert_eq!(c.robot(), Some(RobotId(1)));
    let r = store.get_robot(RobotId(1)).unwrap();
    assert_eq!(r.last_heartbeat, 11);
    assert_eq!(r.battery, Battery(70));
}

#[test]
fn a_registered_connection_reports() {
    let mut store = MemoryStore::new();
    let mut c = Connection::new();
    let register = ClientMsg::Register {
        id: RobotId(1),
        location: loc(),
        battery: Battery(70),
    };
    c.receive(&mut store, register, 11);
    assert_eq!(
        c.receive(&mut store, beat(1, 20), 20),
        ConnectionAction::Nothing
    );
    assert_eq!(store.get_robot(RobotId(1)).unwrap().last_heartbeat, 20);
    assert_eq!(store.heartbeat_count(), 1);
    // an unknown robot's heartbeat and a second registration change nothing
    c.receive(&mut store, beat(2, 21), 21);
    assert_eq!(store.heartbeat_count(), 1);
    let again = ClientMsg::Register {
        id: RobotId(5),
        location: loc(),
        battery: Battery(10),
    };
    assert_eq!(
        c.receive(&mut store, again, 30),
        ConnectionAction::Nothing
    );
    assert_eq!(store.robot_count(), 1);
    assert_eq!(
        c.receive(
            &mut store,
            ClientMsg::TaskDone {
                robot: RobotId(1),
                task: TaskId(2)
            },
            31
        ),
        ConnectionAction::Report {
            robot: RobotId(1),
            task: TaskId(2)
        }
    );
    assert_eq!(c.close(), ConnectionAction::Farewell { robot: RobotId(1) });
}

#[test]
fn orders_become_messages() {
    let mut path = Path::new();
    path.push(NodeId(1));
    path.push(NodeId(2));
    let order = Dispatch {
        robot: RobotId(4),
        task: TaskId(9),
        path,
        pickup: Some(NodeId(2)),
    };
    match task_assign(&order) {
        ServerMsg::TaskAssign { task, path, pickup } => {
            assert_eq!(task, TaskId(9));
            assert_eq!(path, vec![NodeId(1), NodeId(2)]);
            assert_eq!(pickup, Some(NodeId(2)));
        }
        other => panic!("{:?}", other),
    }
    assert!(matches!(
        register_ack(RobotId(4)),
        ServerMsg::RegisterAck { robot: RobotId(4) }
    ));
}

#[test]
fn transport_errors_have_texts() {
    assert_eq!(
        TransportError::Io("gone".to_string()).message(),
        "IO 错误: gone"
    );
    assert_eq!(
        TransportError::Codec("bad".to_string()).message(),
        "编解码错误: bad"
    );
    assert_eq!(TransportError::Closed.message(), "连接已关闭");
}

#[test]
fn messages_to_robots_can_be_copied() {
    let msg = ServerMsg::TaskAssign {
        task: TaskId(4),
        path: vec![NodeId(1), NodeId(2)],
        pickup: Some(NodeId(2)),
    };
    match msg.clone() {
        ServerMsg::TaskAssign { task, path, pickup } => {
            assert_eq!(task, TaskId(4));
            assert_eq!(path, vec![NodeId(1), NodeId(2)]);
            assert_eq!(pickup, Some(NodeId(2)));
        }
        other => panic!("{other:?}"),
    }
    assert!(matches!(
        register_ack(RobotId(3)).clone(),
        ServerMsg::RegisterAck { robot: RobotId(3) }
    ));
}
